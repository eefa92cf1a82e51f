//! Links Notation as the portable text projection of the network.
//!
//! A decomposition is stored twice: as links in a [`LinkStore`], which is what
//! the deduplication works on, and as a `.lino` document, which is what a
//! human reads and what other tools in the associative stack can load. This
//! module is the bridge, and it is exactly reversible: parsing a document into
//! the network and projecting it back yields the same document.
//!
//! Every node is tagged, so the projection never has to guess whether a link
//! is a reference, a list, or a nested link:
//!
//! ```text
//! reference v  ->  (ref  . symbol)
//! list         ->  (cons . (item . rest))  ending in the `nil` marker
//! link id vs   ->  (link . (id-or-nil . list))
//! ```
//!
//! Because [`LinkStore::create`] deduplicates, two identical subtrees anywhere
//! in the document end up as the same link.

use links_notation::LiNo;
use vstd::prelude::*;

use crate::associative::store::{
    law_creation_deduplicates, law_creation_keeps_what_is_stored, law_symbols_are_interned, Doublet,
    LinkIndex, LinkStore, Network, NULL,
};
use crate::error::{Error, Fault};
use crate::text::{decimal, decimal_text};

verus! {

/// A link as the Links Notation crate holds it.
#[verifier::external_type_specification]
#[verifier::external_body]
#[verifier::reject_recursive_types(T)]
pub struct ExLiNo<T>(links_notation::LiNo<T>);

/// A node of a document: a reference, or a link from an identifier to values.
#[derive(Debug, PartialEq)]
pub enum Node {
    /// A reference to something by its name.
    Ref(String),
    /// A link with the values it leads to.
    Link {
        /// What the link is called, unless it is anonymous.
        id: Option<String>,
        /// What the link leads to.
        values: Vec<Node>,
    },
}

/// A parsed Links Notation document: a flat list of top-level links.
pub type Document = Vec<Node>;

/// What a node says.
pub enum Tree {
    /// A reference and its name.
    Ref(Seq<char>),
    /// A link, its identifier and its values.
    Link(Option<Seq<char>>, Seq<Tree>),
}

/// What an identifier says.
pub open spec fn name_of(id: Option<String>) -> Option<Seq<char>> {
    match id {
        Some(name) => Some(name@),
        None => None,
    }
}

/// What a node says.
pub open spec fn tree(node: Node) -> Tree
    decreases node,
{
    match node {
        Node::Ref(value) => Tree::Ref(value@),
        Node::Link { id, values } => Tree::Link(name_of(id), trees(values@)),
    }
}

/// What several nodes say.
pub open spec fn trees(nodes: Seq<Node>) -> Seq<Tree>
    decreases nodes,
{
    if nodes.len() == 0 {
        Seq::empty()
    } else {
        trees(nodes.drop_last()).push(tree(nodes.last()))
    }
}

impl View for Node {
    type V = Tree;

    open spec fn view(&self) -> Tree {
        tree(*self)
    }
}

/// Several nodes say what each of them says.
pub proof fn lemma_trees(nodes: Seq<Node>)
    ensures
        trees(nodes).len() == nodes.len(),
        forall|i: int| 0 <= i < nodes.len() ==> #[trigger] trees(nodes)[i] == tree(nodes[i]),
    decreases nodes.len(),
{
    if nodes.len() > 0 {
        lemma_trees(nodes.drop_last());
        assert forall|i: int| 0 <= i < nodes.len() implies #[trigger] trees(nodes)[i] == tree(
            nodes[i],
        ) by {
            if i < nodes.len() - 1 {
                assert(nodes.drop_last()[i] == nodes[i]);
            }
        }
    }
}

/// What a link of the Links Notation crate holds.
pub uninterp spec fn contents(link: LiNo<String>) -> Tree;

/// What several links of the Links Notation crate hold.
pub open spec fn contents_of(links: Seq<LiNo<String>>) -> Seq<Tree> {
    Seq::new(links.len(), |i: int| contents(links[i]))
}

/// What the Links Notation parser makes of a document: its links, or a
/// complaint.
pub uninterp spec fn parsed(document: Seq<char>) -> Result<Seq<Tree>, Seq<char>>;

/// How a reference is written down, quoted where it has to be.
pub uninterp spec fn quoted(reference: Seq<char>) -> Seq<char>;

/// The characters that stand for themselves anywhere in a document: letters,
/// digits, and `-`, `+`, `_`, `.`, `/`, `#` and `%`.
pub open spec fn is_tame(character: char) -> bool {
    ||| 'a' <= character <= 'z'
    ||| 'A' <= character <= 'Z'
    ||| '0' <= character <= '9'
    ||| character == '-'
    ||| character == '+'
    ||| character == '_'
    ||| character == '.'
    ||| character == '/'
    ||| character == '#'
    ||| character == '%'
}

/// Whether a name holds nothing that the notation gives a meaning.
pub open spec fn tame(name: Seq<char>) -> bool {
    name.len() > 0 && forall|i: int| 0 <= i < name.len() ==> is_tame(#[trigger] name[i])
}

/// Whether a tree is within a number of levels, is tame in every name, and has
/// no link without values.
pub open spec fn tree_tame(tree: Tree, levels: nat) -> bool
    decreases levels,
{
    match tree {
        Tree::Ref(name) => tame(name),
        Tree::Link(id, values) => {
            &&& levels > 0
            &&& id matches Some(name) ==> tame(name)
            &&& values.len() > 0
            &&& forall|i: int|
                0 <= i < values.len() ==> tree_tame(#[trigger] values[i], (levels - 1) as nat)
        },
    }
}

/// How many levels of links the parser follows.
pub open spec fn max_levels() -> nat {
    64
}

/// Whether a document is made of tame links.
pub open spec fn document_tame(document: Seq<Tree>) -> bool {
    forall|i: int|
        0 <= i < document.len() ==> {
            &&& #[trigger] document[i] is Link
            &&& tree_tame(document[i], max_levels())
        }
}

/// Texts with a separator between them.
pub open spec fn joined(texts: Seq<Seq<char>>, separator: char) -> Seq<char>
    decreases texts.len(),
{
    if texts.len() == 0 {
        Seq::empty()
    } else if texts.len() == 1 {
        texts[0]
    } else {
        joined(texts.drop_last(), separator).push(separator) + texts.last()
    }
}

/// How a tree is written down: a reference by its name, a link in brackets with
/// its identifier and a colon before its values.
pub open spec fn written(tree: Tree) -> Seq<char>
    decreases tree,
{
    match tree {
        Tree::Ref(name) => quoted(name),
        Tree::Link(id, values) => seq!['('] + (match id {
            Some(name) => quoted(name) + seq![':', ' '],
            None => Seq::empty(),
        }) + joined(written_all(values), ' ') + seq![')'],
    }
}

/// How several trees are written down.
pub open spec fn written_all(trees: Seq<Tree>) -> Seq<Seq<char>>
    decreases trees,
{
    if trees.len() == 0 {
        Seq::empty()
    } else {
        written_all(trees.drop_last()).push(written(trees.last()))
    }
}

/// One level of a link of the Links Notation crate.
pub enum Opened {
    /// A reference.
    Ref(String),
    /// A link.
    Link(Option<String>, Vec<LiNo<String>>),
}

/// What one level of a link holds.
pub open spec fn opened_contents(opened: Opened) -> Tree {
    match opened {
        Opened::Ref(value) => Tree::Ref(value@),
        Opened::Link(id, values) => Tree::Link(name_of(id), contents_of(values@)),
    }
}

/// Takes one level of a [`LiNo`] apart. The contents of a link are its variant
/// and the contents of its fields.
#[verifier::external_body]
fn opened(link: LiNo<String>) -> (level: Opened)
    ensures
        opened_contents(level) == contents(link),
{
    match link {
        LiNo::Ref(value) => Opened::Ref(value),
        LiNo::Link { id, values } => Opened::Link(id, values),
    }
}

/// `LiNo::reference` builds a reference of its argument.
#[verifier::external_body]
fn outer_reference(value: &str) -> (link: LiNo<String>)
    ensures
        contents(link) == Tree::Ref(value@),
{
    LiNo::reference(value.to_string())
}

/// `LiNo::new` builds a link of its arguments.
#[verifier::external_body]
fn outer_link(id: Option<String>, values: Vec<LiNo<String>>) -> (link: LiNo<String>)
    ensures
        contents(link) == Tree::Link(name_of(id), contents_of(values@)),
{
    LiNo::new(id, values)
}

/// What came of reading a document.
pub open spec fn reading(links: Result<Vec<LiNo<String>>, String>) -> Result<
    Seq<Tree>,
    Seq<char>,
> {
    match links {
        Ok(found) => Ok(contents_of(found@)),
        Err(complaint) => Err(complaint@),
    }
}

/// Whether reading a text gives a document.
pub open spec fn reads_as(outcome: Result<Seq<Tree>, Seq<char>>, document: Seq<Tree>) -> bool {
    outcome matches Ok(trees) && trees == document
}

/// Whether a document is a lone reference to a name.
pub open spec fn refers(document: Seq<Tree>, name: Seq<char>) -> bool {
    document == seq![Tree::Ref(name)]
}

/// The name that a lone reference refers to.
pub open spec fn referred(document: Seq<Tree>) -> Seq<char> {
    document[0]->Ref_0
}

/// `links_notation::parse_lino_to_links` reads a document. What it reads, and
/// what it complains about, depends on the document alone and is named
/// [`parsed`]; an empty document has no links.
#[verifier::external_body]
fn outer_parse(document: &str) -> (links: Result<Vec<LiNo<String>>, String>)
    ensures
        reading(links) == parsed(document@),
        document@.len() == 0 ==> reads_as(reading(links), Seq::empty()),
{
    links_notation::parse_lino_to_links(document).map_err(|error| error.to_string())
}

/// `links_notation::format_links` writes every link on a line of its own. A
/// reference is written as [`quoted`] names it, which is as it stands where it
/// is tame and does not begin with `#`. A document of tame links, with a line
/// end behind it, is read back as it was.
#[verifier::external_body]
fn outer_format(links: &Vec<LiNo<String>>) -> (text: String)
    ensures
        text@ == joined(written_all(contents_of(links@)), '\n'),
        refers(contents_of(links@), referred(contents_of(links@))) ==> text@ == quoted(
            referred(contents_of(links@)),
        ),
        refers(contents_of(links@), referred(contents_of(links@))) && tame(
            referred(contents_of(links@)),
        ) && referred(contents_of(links@))[0] != '#' ==> text@ == referred(contents_of(links@)),
        document_tame(contents_of(links@)) ==> reads_as(
            parsed(text@.push('\n')),
            contents_of(links@),
        ),
{
    links_notation::format_links(links)
}

/// A node as the Links Notation crate holds it.
fn outer(node: &Node) -> (link: LiNo<String>)
    ensures
        contents(link) == tree(*node),
    decreases node,
{
    match node {
        Node::Ref(value) => outer_reference(value.as_str()),
        Node::Link { id, values } => {
            let mut links: Vec<LiNo<String>> = Vec::new();
            let mut index: usize = 0;
            while index < values.len()
                invariant
                    index <= values@.len(),
                    links@.len() == index,
                    forall|i: int| 0 <= i < index ==> contents(#[trigger] links@[i]) == tree(
                        values@[i],
                    ),
                    node == (Node::Link { id: *id, values: *values }),
                decreases values@.len() - index,
            {
                proof {
                    assert(decreases_to!(*node => node->values));
                    assert(decreases_to!(node->values => values@));
                    assert(decreases_to!(values@ => values@[index as int]));
                }
                links.push(outer(&values[index]));
                index = index + 1;
            }
            proof {
                lemma_trees(values@);
                assert(contents_of(links@) =~= trees(values@));
            }
            let name: Option<String> = match id {
                Some(text) => Some(text.clone()),
                None => None,
            };
            outer_link(name, links)
        },
    }
}

/// A link of the Links Notation crate as a node.
fn inner(link: LiNo<String>) -> (node: Node)
    ensures
        tree(node) == contents(link),
    decreases contents(link),
{
    match opened(link) {
        Opened::Ref(value) => Node::Ref(value),
        Opened::Link(id, links) => {
            proof {
                assert(decreases_to!(contents(link) => contents(link)->Link_1));
            }
            let values = inner_all(links);
            Node::Link { id, values }
        },
    }
}

/// Links of the Links Notation crate as nodes.
fn inner_all(links: Vec<LiNo<String>>) -> (nodes: Vec<Node>)
    ensures
        trees(nodes@) == contents_of(links@),
    decreases contents_of(links@),
{
    let ghost held = links@;
    let mut nodes: Vec<Node> = Vec::new();
    for link in iter: links.into_iter()
        invariant
            iter.seq() == held,
            held == links@,
            nodes@.len() == iter.index(),
            forall|i: int| 0 <= i < iter.index() ==> tree(#[trigger] nodes@[i]) == contents(
                held[i],
            ),
    {
        proof {
            assert(contents_of(held)[iter.index()] == contents(link));
            assert(decreases_to!(contents_of(held) => contents_of(held)[iter.index()]));
        }
        nodes.push(inner(link));
    }
    proof {
        lemma_trees(nodes@);
        assert(trees(nodes@) =~= contents_of(held));
    }
    nodes
}

/// Parses a Links Notation document.
///
/// # Errors
///
/// Returns [`Error::Parse`] when the document is not valid Links Notation.
pub fn parse(document: &str) -> (result: Result<Document, Error>)
    ensures
        match parsed(document@) {
            Ok(expected) => result matches Ok(nodes) && trees(nodes@) == expected,
            Err(complaint) => result matches Err(error) && error@ == Fault::Parse(complaint),
        },
        document@.len() == 0 ==> (result matches Ok(nodes) && nodes@.len() == 0),
{
    match outer_parse(document) {
        Ok(links) => {
            let nodes = inner_all(links);
            proof {
                lemma_trees(nodes@);
            }
            Ok(nodes)
        },
        Err(complaint) => Err(Error::Parse(complaint)),
    }
}

/// A document as text: one link per line.
pub open spec fn formatted(document: Seq<Tree>) -> Seq<char> {
    let lines = joined(written_all(document), '\n');
    if lines.len() == 0 {
        lines
    } else {
        lines.push('\n')
    }
}

/// A link is written with at least its brackets.
proof fn lemma_links_show(document: Seq<Tree>)
    requires
        document.len() > 0,
        document[0] is Link,
    ensures
        joined(written_all(document), '\n').len() > 0,
    decreases document.len(),
{
    if document.len() == 1 {
        assert(document.drop_last() =~= Seq::empty());
        assert(written_all(document) =~= seq![written(document[0])]);
    } else {
        lemma_written_length(document.drop_last());
        assert(written_all(document).drop_last() =~= written_all(document.drop_last()));
    }
}

/// As many texts are written as there are trees.
proof fn lemma_written_length(document: Seq<Tree>)
    ensures
        written_all(document).len() == document.len(),
    decreases document.len(),
{
    if document.len() > 0 {
        lemma_written_length(document.drop_last());
    }
}

/// Formats a document back to Links Notation, one link per line.
///
/// A document of tame links is read back as it was.
pub fn format(document: &Document) -> (text: String)
    ensures
        text@ == formatted(trees(document@)),
        document_tame(trees(document@)) && document@.len() > 0 ==> reads_as(
            parsed(text@),
            trees(document@),
        ),
{
    let mut links: Vec<LiNo<String>> = Vec::new();
    let mut index: usize = 0;
    while index < document.len()
        invariant
            index <= document@.len(),
            links@.len() == index,
            forall|i: int| 0 <= i < index ==> contents(#[trigger] links@[i]) == tree(document@[i]),
        decreases document@.len() - index,
    {
        links.push(outer(&document[index]));
        index = index + 1;
    }
    proof {
        lemma_trees(document@);
        assert(contents_of(links@) =~= trees(document@));
    }
    let mut text = outer_format(&links);
    proof {
        if document_tame(trees(document@)) && document@.len() > 0 {
            assert(trees(document@)[0] is Link);
            lemma_links_show(trees(document@));
        }
    }
    if text.unicode_len() > 0 {
        text.push('\n');
    }
    text
}

/// One node in Links Notation.
pub fn node_text(node: &Node) -> (text: String)
    ensures
        text@ == written(tree(*node)),
{
    let mut links: Vec<LiNo<String>> = Vec::new();
    links.push(outer(node));
    let text = outer_format(&links);
    proof {
        let said = seq![tree(*node)];
        assert(contents_of(links@) =~= said);
        assert(said.drop_last() =~= Seq::<Tree>::empty());
        assert(written_all(said.drop_last()) =~= Seq::<Seq<char>>::empty());
        assert(written_all(said) =~= seq![written(tree(*node))]);
    }
    text
}

/// Builds a link node from an identifier and its values.
pub fn link(id: &str, values: Vec<Node>) -> (node: Node)
    ensures
        tree(node) == Tree::Link(Some(id@), trees(values@)),
{
    Node::Link { id: Some(id.to_string()), values }
}

/// Builds a reference node.
pub fn reference(value: &str) -> (node: Node)
    ensures
        tree(node) == Tree::Ref(value@),
{
    Node::Ref(value.to_string())
}

/// An anonymous `(key value)` property.
pub open spec fn property_tree(key: Seq<char>, value: Seq<char>) -> Tree {
    Tree::Link(None, seq![Tree::Ref(key), Tree::Ref(value)])
}

/// Builds an anonymous `(key value)` property node.
pub fn property(key: &str, value: &str) -> (node: Node)
    ensures
        tree(node) == property_tree(key@, value@),
{
    let mut values: Vec<Node> = Vec::new();
    values.push(reference(key));
    values.push(reference(value));
    proof {
        lemma_trees(values@);
        assert(trees(values@) =~= seq![Tree::Ref(key@), Tree::Ref(value@)]);
    }
    Node::Link { id: None, values }
}

/// Marker symbols that tag every node stored by this module.
#[derive(Clone, Copy, Debug)]
pub struct Markers {
    /// Tags a reference node.
    pub reference: LinkIndex,
    /// Tags a list cell.
    pub cons: LinkIndex,
    /// Terminates a list.
    pub nil: LinkIndex,
    /// Tags a link node.
    pub link: LinkIndex,
    /// Tags the document root.
    pub document: LinkIndex,
}

/// The network with the markers in it, and the markers.
pub open spec fn interned(network: Network) -> (Network, Markers) {
    let (first, reference) = network.with_symbol("lino:ref"@);
    let (second, cons) = first.with_symbol("lino:cons"@);
    let (third, nil) = second.with_symbol("lino:nil"@);
    let (fourth, link) = third.with_symbol("lino:link"@);
    let (fifth, document) = fourth.with_symbol("lino:document"@);
    (fifth, Markers { reference, cons, nil, link, document })
}

impl Markers {
    /// Interns the markers in a store, reusing them if they already exist.
    pub fn intern(store: &mut LinkStore) -> (markers: Self)
        requires
            old(store).wf(),
            interned(old(store)@).0.links.len() <= usize::MAX,
        ensures
            final(store).wf(),
            (final(store)@, markers) == interned(old(store)@),
            final(store)@.links.len() <= old(store)@.links.len() + 5,
    {
        let reference: usize = store.symbol("lino:ref");
        let cons: usize = store.symbol("lino:cons");
        let nil: usize = store.symbol("lino:nil");
        let link: usize = store.symbol("lino:link");
        let document: usize = store.symbol("lino:document");
        Markers { reference, cons, nil, link, document }
    }
}

/// The markers are interned once: interning them again, whatever was stored in
/// between, returns them and stores nothing. They are five points, each under its
/// own name.
pub proof fn law_markers_are_interned_once(network: Network, later: Network)
    requires
        network.sound(),
        network.links.len() + 5 <= usize::MAX,
        interned(network).0.symbols.submap_of(later.symbols),
    ensures
        interned(later) == (later, interned(network).1),
        ({
            let (after, markers) = interned(network);
            &&& after.point(markers.reference as int)
            &&& after.point(markers.cons as int)
            &&& after.point(markers.nil as int)
            &&& after.point(markers.link as int)
            &&& after.point(markers.document as int)
            &&& after.names[markers.reference] == "lino:ref"@
            &&& after.names[markers.cons] == "lino:cons"@
            &&& after.names[markers.nil] == "lino:nil"@
            &&& after.names[markers.link] == "lino:link"@
            &&& after.names[markers.document] == "lino:document"@
            &&& markers.reference != markers.cons
            &&& markers.reference != markers.nil
            &&& markers.reference != markers.link
            &&& markers.reference != markers.document
            &&& markers.cons != markers.nil
            &&& markers.cons != markers.link
            &&& markers.cons != markers.document
            &&& markers.nil != markers.link
            &&& markers.nil != markers.document
            &&& markers.link != markers.document
        }),
{
    let first = network.with_symbol("lino:ref"@).0;
    let second = first.with_symbol("lino:cons"@).0;
    let third = second.with_symbol("lino:nil"@).0;
    let fourth = third.with_symbol("lino:link"@).0;
    lemma_with_symbol(network, "lino:ref"@);
    lemma_with_symbol(first, "lino:cons"@);
    lemma_with_symbol(second, "lino:nil"@);
    lemma_with_symbol(third, "lino:link"@);
    lemma_with_symbol(fourth, "lino:document"@);
    reveal_strlit("lino:ref");
    reveal_strlit("lino:cons");
    reveal_strlit("lino:nil");
    reveal_strlit("lino:link");
    reveal_strlit("lino:document");
    assert("lino:ref"@[5] == 'r');
    assert("lino:cons"@[5] == 'c');
    assert("lino:nil"@[5] == 'n');
    assert("lino:link"@[5] == 'l');
    assert("lino:document"@[5] == 'd');
    let (after, markers) = interned(network);
    assert(after.symbols.contains_key("lino:ref"@) && after.symbols["lino:ref"@]
        == markers.reference);
    assert(after.symbols.contains_key("lino:cons"@) && after.symbols["lino:cons"@]
        == markers.cons);
    assert(after.symbols.contains_key("lino:nil"@) && after.symbols["lino:nil"@] == markers.nil);
    assert(after.symbols.contains_key("lino:link"@) && after.symbols["lino:link"@]
        == markers.link);
    assert(after.symbols.contains_key("lino:document"@) && after.symbols["lino:document"@]
        == markers.document);
    assert(later.symbols.contains_key("lino:ref"@) && later.symbols.contains_key("lino:cons"@)
        && later.symbols.contains_key("lino:nil"@) && later.symbols.contains_key("lino:link"@)
        && later.symbols.contains_key("lino:document"@));
}

/// The network with a named reference in it, and the address of the reference.
pub open spec fn with_reference(network: Network, markers: Markers, name: Seq<char>) -> (
    Network,
    LinkIndex,
) {
    let (named, symbol) = network.with_symbol(name);
    named.with_link(markers.reference, symbol)
}

/// The network with a list in it, and the address of the list.
pub open spec fn with_list(network: Network, markers: Markers, items: Seq<LinkIndex>) -> (
    Network,
    LinkIndex,
)
    decreases items.len(),
{
    if items.len() == 0 {
        (network, markers.nil)
    } else {
        let (tail, rest) = with_list(network, markers, items.skip(1));
        let (paired, cell) = tail.with_link(items[0], rest);
        paired.with_link(markers.cons, cell)
    }
}

/// The network with a tree in it, and the address of the tree.
pub open spec fn with_tree(network: Network, markers: Markers, tree: Tree) -> (Network, LinkIndex)
    decreases tree,
{
    match tree {
        Tree::Ref(name) => with_reference(network, markers, name),
        Tree::Link(id, values) => {
            let (named, identifier) = match id {
                Some(name) => with_reference(network, markers, name),
                None => (network, markers.nil),
            };
            let (filled, items) = with_trees(named, markers, values);
            let (listed, list) = with_list(filled, markers, items);
            let (bodied, body) = listed.with_link(identifier, list);
            bodied.with_link(markers.link, body)
        },
    }
}

/// The network with several trees in it, and their addresses.
pub open spec fn with_trees(network: Network, markers: Markers, values: Seq<Tree>) -> (
    Network,
    Seq<LinkIndex>,
)
    decreases values,
{
    if values.len() == 0 {
        (network, Seq::empty())
    } else {
        let (before, items) = with_trees(network, markers, values.drop_last());
        let (after, item) = with_tree(before, markers, values.last());
        (after, items.push(item))
    }
}

/// The network with a document in it, and the address of the document.
pub open spec fn with_document(network: Network, document: Seq<Tree>) -> (Network, LinkIndex) {
    let (marked, markers) = interned(network);
    let (filled, items) = with_trees(marked, markers, document);
    let (listed, list) = with_list(filled, markers, items);
    listed.with_link(markers.document, list)
}

/// How many links a tree takes at most.
pub open spec fn weight(tree: Tree) -> nat
    decreases tree,
{
    match tree {
        Tree::Ref(_) => 2,
        Tree::Link(_, values) => 4 + weights(values) + 2 * values.len(),
    }
}

/// How many links several trees take at most.
pub open spec fn weights(values: Seq<Tree>) -> nat
    decreases values,
{
    if values.len() == 0 {
        0
    } else {
        weights(values.drop_last()) + weight(values.last())
    }
}

/// Whether everything that one network holds stands in another one too, at the
/// same address and under the same name.
pub open spec fn grows(before: Network, after: Network) -> bool {
    &&& before.links.is_prefix_of(after.links)
    &&& before.names.submap_of(after.names)
    &&& before.symbols.submap_of(after.symbols)
}

/// A link keeps its place.
pub proof fn lemma_kept(before: Network, after: Network, index: int)
    requires
        grows(before, after),
        before.at(index) is Some,
    ensures
        after.at(index) == before.at(index),
{
}

/// A network that grew twice grew.
pub proof fn lemma_grows(first: Network, second: Network, third: Network)
    requires
        grows(first, second),
        grows(second, third),
    ensures
        grows(first, third),
{
    assert forall|i: int| 0 <= i < first.links.len() implies first.links[i] == third.links[i] by {
        assert(first.links[i] == second.links.subrange(0, first.links.len() as int)[i]);
        assert(second.links[i] == third.links.subrange(0, second.links.len() as int)[i]);
    }
    assert(first.links =~= third.links.subrange(0, first.links.len() as int));
    assert forall|index: LinkIndex| #[trigger] first.names.dom().contains(
        index,
    ) implies third.names.dom().contains(index) && first.names[index] == third.names[index] by {
        assert(second.names.dom().contains(index));
    }
    assert forall|name: Seq<char>| #[trigger] first.symbols.dom().contains(
        name,
    ) implies third.symbols.dom().contains(name) && first.symbols[name] == third.symbols[name] by {
        assert(second.symbols.dom().contains(name));
    }
}

/// What creating a link does.
pub proof fn lemma_with_link(network: Network, source: LinkIndex, target: LinkIndex)
    requires
        network.sound(),
        network.links.len() < usize::MAX,
    ensures
        ({
            let (after, index) = network.with_link(source, target);
            &&& after.sound()
            &&& grows(network, after)
            &&& after.links.len() <= network.links.len() + 1
            &&& index >= 1
            &&& after.at(index as int) == Some(Doublet { source, target })
        }),
{
    law_creation_deduplicates(network, source, target);
    law_creation_keeps_what_is_stored(network, source, target, Seq::empty());
}

/// What interning a symbol does.
pub proof fn lemma_with_symbol(network: Network, name: Seq<char>)
    requires
        network.sound(),
        network.links.len() < usize::MAX,
    ensures
        ({
            let (after, index) = network.with_symbol(name);
            &&& after.sound()
            &&& grows(network, after)
            &&& after.links.len() <= network.links.len() + 1
            &&& after.symbols.contains_key(name)
            &&& after.symbols[name] == index
            &&& after.names.contains_key(index)
            &&& after.names[index] == name
            &&& after.point(index as int)
        }),
{
    law_symbols_are_interned(network, name);
    law_creation_keeps_what_is_stored(network, 0, 0, name);
}

/// What storing a reference does.
pub proof fn lemma_with_reference(network: Network, markers: Markers, name: Seq<char>)
    requires
        network.sound(),
        network.links.len() + 2 <= usize::MAX,
    ensures
        ({
            let (after, index) = with_reference(network, markers, name);
            &&& after.sound()
            &&& grows(network, after)
            &&& after.links.len() <= network.links.len() + 2
        }),
{
    let (named, symbol) = network.with_symbol(name);
    lemma_with_symbol(network, name);
    lemma_with_link(named, markers.reference, symbol);
    lemma_grows(network, named, with_reference(network, markers, name).0);
}

/// What storing a list does.
pub proof fn lemma_with_list(network: Network, markers: Markers, items: Seq<LinkIndex>)
    requires
        network.sound(),
        network.links.len() + 2 * items.len() <= usize::MAX,
    ensures
        ({
            let (after, list) = with_list(network, markers, items);
            &&& after.sound()
            &&& grows(network, after)
            &&& after.links.len() <= network.links.len() + 2 * items.len()
        }),
    decreases items.len(),
{
    if items.len() > 0 {
        let (tail, rest) = with_list(network, markers, items.skip(1));
        let (paired, cell) = tail.with_link(items[0], rest);
        lemma_with_list(network, markers, items.skip(1));
        lemma_with_link(tail, items[0], rest);
        lemma_with_link(paired, markers.cons, cell);
        lemma_grows(network, tail, paired);
        lemma_grows(network, paired, with_list(network, markers, items).0);
    }
}

/// What storing a tree does.
pub proof fn lemma_with_tree(network: Network, markers: Markers, tree: Tree)
    requires
        network.sound(),
        network.links.len() + weight(tree) <= usize::MAX,
    ensures
        ({
            let (after, index) = with_tree(network, markers, tree);
            &&& after.sound()
            &&& grows(network, after)
            &&& after.links.len() <= network.links.len() + weight(tree)
        }),
    decreases tree,
{
    match tree {
        Tree::Ref(name) => {
            lemma_with_reference(network, markers, name);
        },
        Tree::Link(id, values) => {
            let (named, identifier) = match id {
                Some(name) => with_reference(network, markers, name),
                None => (network, markers.nil),
            };
            let (filled, items) = with_trees(named, markers, values);
            let (listed, list) = with_list(filled, markers, items);
            let (bodied, body) = listed.with_link(identifier, list);
            if let Some(name) = id {
                lemma_with_reference(network, markers, name);
            }
            lemma_with_trees(named, markers, values);
            lemma_with_list(filled, markers, items);
            lemma_with_link(listed, identifier, list);
            lemma_with_link(bodied, markers.link, body);
            lemma_grows(network, named, filled);
            lemma_grows(network, filled, listed);
            lemma_grows(network, listed, bodied);
            lemma_grows(network, bodied, with_tree(network, markers, tree).0);
        },
    }
}

/// What storing several trees does.
pub proof fn lemma_with_trees(network: Network, markers: Markers, values: Seq<Tree>)
    requires
        network.sound(),
        network.links.len() + weights(values) <= usize::MAX,
    ensures
        ({
            let (after, items) = with_trees(network, markers, values);
            &&& after.sound()
            &&& grows(network, after)
            &&& after.links.len() <= network.links.len() + weights(values)
            &&& items.len() == values.len()
        }),
    decreases values,
{
    if values.len() > 0 {
        let (before, items) = with_trees(network, markers, values.drop_last());
        lemma_with_trees(network, markers, values.drop_last());
        lemma_with_tree(before, markers, values.last());
        lemma_grows(network, before, with_trees(network, markers, values).0);
    }
}

/// Several trees take no more than the first of them and the others.
proof fn lemma_weights_split(values: Seq<Tree>, count: int)
    requires
        0 <= count < values.len(),
    ensures
        weights(values.take(count)) + weight(values[count]) <= weights(values),
        weights(values.take(count + 1)) == weights(values.take(count)) + weight(values[count]),
    decreases values.len(),
{
    assert(values.take(count + 1).drop_last() =~= values.take(count));
    if count < values.len() - 1 {
        lemma_weights_split(values.drop_last(), count);
        assert(values.drop_last().take(count) =~= values.take(count));
    } else {
        assert(values.take(count + 1) =~= values);
    }
}

/// Stores a node in the network.
fn store_node(store: &mut LinkStore, markers: Markers, node: &Node) -> (index: LinkIndex)
    requires
        old(store).wf(),
        old(store)@.links.len() + weight(tree(*node)) <= usize::MAX,
    ensures
        final(store).wf(),
        (final(store)@, index) == with_tree(old(store)@, markers, tree(*node)),
        final(store)@.links.len() <= old(store)@.links.len() + weight(tree(*node)),
    decreases node,
{
    proof {
        lemma_with_tree(store@, markers, tree(*node));
    }
    match node {
        Node::Ref(value) => {
            let symbol: usize = store.symbol(value.as_str());
            store.create(markers.reference, symbol)
        },
        Node::Link { id, values } => {
            let identifier: usize = match id {
                Some(name) => {
                    proof {
                        lemma_with_symbol(store@, name@);
                    }
                    let symbol: usize = store.symbol(name.as_str());
                    store.create(markers.reference, symbol)
                },
                None => markers.nil,
            };
            let ghost named = store@;
            proof {
                if let Some(name) = name_of(*id) {
                    lemma_with_reference(old(store)@, markers, name);
                }
                lemma_trees(values@);
                lemma_with_trees(named, markers, trees(values@));
                assert(decreases_to!(*node => node->values));
            }
            let items = store_nodes(store, markers, values);
            let ghost filled = store@;
            proof {
                lemma_with_list(filled, markers, items@);
            }
            let list: usize = store_list(store, markers, items.as_slice());
            proof {
                lemma_with_link(store@, identifier, list);
            }
            let body: usize = store.create(identifier, list);
            store.create(markers.link, body)
        },
    }
}

/// Stores several nodes in the network.
fn store_nodes(store: &mut LinkStore, markers: Markers, nodes: &Vec<Node>) -> (items: Vec<
    LinkIndex,
>)
    requires
        old(store).wf(),
        old(store)@.links.len() + weights(trees(nodes@)) <= usize::MAX,
    ensures
        final(store).wf(),
        (final(store)@, items@) == with_trees(old(store)@, markers, trees(nodes@)),
        final(store)@.links.len() <= old(store)@.links.len() + weights(trees(nodes@)),
    decreases nodes,
{
    let mut items: Vec<usize> = Vec::new();
    let mut index: usize = 0;
    let ghost values = trees(nodes@);
    proof {
        lemma_trees(nodes@);
        assert(values.take(0) =~= Seq::<Tree>::empty());
        assert(items@ =~= Seq::<usize>::empty());
    }
    while index < nodes.len()
        invariant
            index <= nodes@.len(),
            values == trees(nodes@),
            values.len() == nodes@.len(),
            forall|i: int| 0 <= i < nodes@.len() ==> #[trigger] values[i] == tree(nodes@[i]),
            store.wf(),
            (store@, items@) == with_trees(old(store)@, markers, values.take(index as int)),
            store@.links.len() <= old(store)@.links.len() + weights(values.take(index as int)),
            old(store)@.links.len() + weights(values) <= usize::MAX,
        decreases nodes@.len() - index,
    {
        proof {
            lemma_weights_split(values, index as int);
            assert(values.take(index + 1).drop_last() =~= values.take(index as int));
            assert(values.take(index + 1).last() == tree(nodes@[index as int]));
            assert(decreases_to!(*nodes => nodes@));
            assert(decreases_to!(nodes@ => nodes@[index as int]));
        }
        let item: usize = store_node(store, markers, &nodes[index]);
        items.push(item);
        index = index + 1;
    }
    proof {
        assert(values.take(index as int) =~= values);
    }
    items
}

/// Stores a list of links in the network.
fn store_list(store: &mut LinkStore, markers: Markers, items: &[LinkIndex]) -> (list: LinkIndex)
    requires
        old(store).wf(),
        old(store)@.links.len() + 2 * items@.len() <= usize::MAX,
    ensures
        final(store).wf(),
        (final(store)@, list) == with_list(old(store)@, markers, items@),
        final(store)@.links.len() <= old(store)@.links.len() + 2 * items@.len(),
{
    let length: usize = items.len();
    let mut rest: usize = markers.nil;
    let mut position: usize = length;
    assert(items@.skip(length as int) =~= Seq::<usize>::empty());
    while position > 0
        invariant
            position <= length,
            length == items@.len(),
            store.wf(),
            (store@, rest) == with_list(old(store)@, markers, items@.skip(position as int)),
            store@.links.len() <= old(store)@.links.len() + 2 * (length - position),
            old(store)@.links.len() + 2 * length <= usize::MAX,
        decreases position,
    {
        position = position - 1;
        proof {
            assert(items@.skip(position as int).skip(1) =~= items@.skip(position + 1));
            lemma_with_link(store@, items@[position as int], rest);
        }
        let cell: usize = store.create(items[position], rest);
        proof {
            lemma_with_link(store@, markers.cons, cell);
        }
        rest = store.create(markers.cons, cell);
    }
    assert(items@.skip(0) =~= items@);
    rest
}

/// Stores a whole document in the network, returning the root link.
pub fn store_document(store: &mut LinkStore, document: &Document) -> (root: LinkIndex)
    requires
        old(store).wf(),
        old(store)@.links.len() + weights(trees(document@)) + 2 * document@.len() + 6 <= usize::MAX,
    ensures
        final(store).wf(),
        (final(store)@, root) == with_document(old(store)@, trees(document@)),
{
    let markers = Markers::intern(store);
    proof {
        lemma_trees(document@);
        lemma_with_trees(store@, markers, trees(document@));
    }
    let items = store_nodes(store, markers, document);
    let list: usize = store_list(store, markers, items.as_slice());
    store.create(markers.document, list)
}

/// A complaint about a link.
pub open spec fn about(index: LinkIndex, complaint: Seq<char>) -> Fault {
    Fault::Format("link "@ + decimal(index as nat) + complaint)
}

/// Complains about a link.
fn about_link(index: LinkIndex, complaint: &str) -> (error: Error)
    ensures
        error@ == about(index, complaint@),
{
    let mut message = "link ".to_string();
    message.append(decimal_text(index as u64).as_str());
    message.append(complaint);
    Error::Format(message)
}

/// The markers that stand in a network.
pub open spec fn marked(network: Network) -> Result<Markers, Fault> {
    if !network.symbols.contains_key("lino:ref"@) {
        Err(unmarked("lino:ref"@))
    } else if !network.symbols.contains_key("lino:cons"@) {
        Err(unmarked("lino:cons"@))
    } else if !network.symbols.contains_key("lino:nil"@) {
        Err(unmarked("lino:nil"@))
    } else if !network.symbols.contains_key("lino:link"@) {
        Err(unmarked("lino:link"@))
    } else if !network.symbols.contains_key("lino:document"@) {
        Err(unmarked("lino:document"@))
    } else {
        Ok(
            Markers {
                reference: network.symbols["lino:ref"@],
                cons: network.symbols["lino:cons"@],
                nil: network.symbols["lino:nil"@],
                link: network.symbols["lino:link"@],
                document: network.symbols["lino:document"@],
            },
        )
    }
}

/// The complaint about a marker that is not there.
pub open spec fn unmarked(name: Seq<char>) -> Fault {
    Fault::Format("store has no `"@ + name + "` marker"@)
}

/// The items of a list, behind those that were read already, for a number of
/// steps. A list that ends does so within as many steps as there are links.
pub open spec fn list_at(
    network: Network,
    markers: Markers,
    list: LinkIndex,
    items: Seq<LinkIndex>,
    steps: nat,
) -> Result<Seq<LinkIndex>, Fault>
    decreases steps,
{
    if list == markers.nil {
        Ok(items)
    } else {
        match network.at(list as int) {
            None => Err(about(list, " is not in the store"@)),
            Some(cell) => if cell.source != markers.cons {
                Err(about(list, " is not a list cell"@))
            } else {
                match network.at(cell.target as int) {
                    None => Err(about(cell.target, " is not in the store"@)),
                    Some(pair) => if pair.target == NULL || steps == 0 {
                        Err(Fault::Format("list is not terminated"@))
                    } else {
                        list_at(
                            network,
                            markers,
                            pair.target,
                            items.push(pair.source),
                            (steps - 1) as nat,
                        )
                    },
                }
            },
        }
    }
}

/// The tree at an address, followed for a number of levels down. A tree that
/// ends does so within as many levels as there are links.
pub open spec fn tree_at(
    network: Network,
    markers: Markers,
    index: LinkIndex,
    depth: nat,
) -> Result<Tree, Fault>
    decreases depth, 0nat,
{
    match network.at(index as int) {
        None => Err(about(index, " is not in the store"@)),
        Some(node) => if node.source == markers.reference {
            if network.names.contains_key(node.target) {
                Ok(Tree::Ref(network.names[node.target]))
            } else {
                Err(about(node.target, " is not a symbol"@))
            }
        } else if node.source != markers.link {
            Err(about(index, " is neither a reference nor a link node"@))
        } else {
            match network.at(node.target as int) {
                None => Err(about(node.target, " is not in the store"@)),
                Some(body) => {
                    let id = if body.source == markers.nil {
                        Ok(None)
                    } else if depth == 0 {
                        Err(about(index, " contains itself"@))
                    } else {
                        match tree_at(network, markers, body.source, (depth - 1) as nat) {
                            Ok(Tree::Ref(name)) => Ok(Some(name)),
                            Ok(Tree::Link(_, _)) => Err(
                                about(index, " has a compound identifier"@),
                            ),
                            Err(fault) => Err(fault),
                        }
                    };
                    match id {
                        Err(fault) => Err(fault),
                        Ok(name) => match list_at(
                            network,
                            markers,
                            body.target,
                            Seq::empty(),
                            network.links.len(),
                        ) {
                            Err(fault) => Err(fault),
                            Ok(items) => if items.len() == 0 {
                                Ok(Tree::Link(name, Seq::empty()))
                            } else if depth == 0 {
                                Err(about(index, " contains itself"@))
                            } else {
                                match trees_at(network, markers, items, (depth - 1) as nat) {
                                    Ok(values) => Ok(Tree::Link(name, values)),
                                    Err(fault) => Err(fault),
                                }
                            },
                        },
                    }
                },
            }
        },
    }
}

/// The trees at several addresses, each followed for a number of levels down.
pub open spec fn trees_at(
    network: Network,
    markers: Markers,
    items: Seq<LinkIndex>,
    depth: nat,
) -> Result<Seq<Tree>, Fault>
    decreases depth, items.len() + 1,
{
    if items.len() == 0 {
        Ok(Seq::empty())
    } else {
        match trees_at(network, markers, items.drop_last(), depth) {
            Err(fault) => Err(fault),
            Ok(values) => match tree_at(network, markers, items.last(), depth) {
                Ok(value) => Ok(values.push(value)),
                Err(fault) => Err(fault),
            },
        }
    }
}

/// The document at an address.
pub open spec fn document_at(network: Network, root: LinkIndex) -> Result<Seq<Tree>, Fault> {
    match marked(network) {
        Err(fault) => Err(fault),
        Ok(markers) => match network.at(root as int) {
            None => Err(about(root, " is not in the store"@)),
            Some(doublet) => if doublet.source != markers.document {
                Err(about(root, " is not a Links Notation document"@))
            } else {
                match list_at(
                    network,
                    markers,
                    doublet.target,
                    Seq::empty(),
                    network.links.len(),
                ) {
                    Err(fault) => Err(fault),
                    Ok(items) => trees_at(network, markers, items, network.links.len()),
                }
            },
        },
    }
}

/// Finds a marker in a store.
fn expect_marker(store: &LinkStore, name: &str) -> (result: Result<LinkIndex, Error>)
    ensures
        match result {
            Ok(index) => store@.symbols.contains_key(name@) && index == store@.symbols[name@],
            Err(error) => !store@.symbols.contains_key(name@) && error@ == unmarked(name@),
        },
{
    match store.find_symbol(name) {
        Some(index) => Ok(index),
        None => {
            let mut message = "store has no `".to_string();
            message.append(name);
            message.append("` marker");
            Err(Error::Format(message))
        },
    }
}

/// Finds the markers in a store.
fn expect_markers(store: &LinkStore) -> (result: Result<Markers, Error>)
    ensures
        match marked(store@) {
            Ok(markers) => result == Ok::<Markers, Error>(markers),
            Err(fault) => result matches Err(error) && error@ == fault,
        },
{
    let reference: usize = match expect_marker(store, "lino:ref") {
        Ok(index) => index,
        Err(error) => return Err(error),
    };
    let cons: usize = match expect_marker(store, "lino:cons") {
        Ok(index) => index,
        Err(error) => return Err(error),
    };
    let nil: usize = match expect_marker(store, "lino:nil") {
        Ok(index) => index,
        Err(error) => return Err(error),
    };
    let link: usize = match expect_marker(store, "lino:link") {
        Ok(index) => index,
        Err(error) => return Err(error),
    };
    let document: usize = match expect_marker(store, "lino:document") {
        Ok(index) => index,
        Err(error) => return Err(error),
    };
    Ok(Markers { reference, cons, nil, link, document })
}

/// Reads a list of links out of the network.
fn read_list(store: &LinkStore, markers: Markers, list: LinkIndex) -> (result: Result<
    Vec<LinkIndex>,
    Error,
>)
    ensures
        match list_at(store@, markers, list, Seq::empty(), store@.links.len()) {
            Ok(expected) => result matches Ok(items) && items@ == expected,
            Err(fault) => result matches Err(error) && error@ == fault,
        },
{
    let ghost goal = list_at(store@, markers, list, Seq::empty(), store@.links.len());
    let mut items: Vec<usize> = Vec::new();
    let mut rest: usize = list;
    let mut steps: usize = store.len();
    assert(items@ =~= Seq::<usize>::empty());
    while rest != markers.nil
        invariant
            goal == list_at(store@, markers, list, Seq::empty(), store@.links.len()),
            goal == list_at(store@, markers, rest, items@, steps as nat),
        decreases steps,
    {
        let cell: Doublet = match store.get(rest) {
            Some(cell) => cell,
            None => return Err(about_link(rest, " is not in the store")),
        };
        if cell.source != markers.cons {
            return Err(about_link(rest, " is not a list cell"));
        }
        let pair: Doublet = match store.get(cell.target) {
            Some(pair) => pair,
            None => return Err(about_link(cell.target, " is not in the store")),
        };
        if pair.target == NULL || steps == 0 {
            return Err(Error::Format("list is not terminated".to_string()));
        }
        items.push(pair.source);
        rest = pair.target;
        steps = steps - 1;
    }
    Ok(items)
}

/// Reads a node out of the network.
fn read_node(store: &LinkStore, markers: Markers, index: LinkIndex, depth: usize) -> (result:
    Result<Node, Error>)
    ensures
        match tree_at(store@, markers, index, depth as nat) {
            Ok(expected) => result matches Ok(node) && tree(node) == expected,
            Err(fault) => result matches Err(error) && error@ == fault,
        },
    decreases depth, 0nat,
{
    let node: Doublet = match store.get(index) {
        Some(node) => node,
        None => return Err(about_link(index, " is not in the store")),
    };
    if node.source == markers.reference {
        return match store.name(node.target) {
            Some(name) => Ok(Node::Ref(name.to_string())),
            None => Err(about_link(node.target, " is not a symbol")),
        };
    }
    if node.source != markers.link {
        return Err(about_link(index, " is neither a reference nor a link node"));
    }
    let body: Doublet = match store.get(node.target) {
        Some(body) => body,
        None => return Err(about_link(node.target, " is not in the store")),
    };
    let id: Option<String> = if body.source == markers.nil {
        None
    } else if depth == 0 {
        return Err(about_link(index, " contains itself"));
    } else {
        match read_node(store, markers, body.source, depth - 1) {
            Ok(Node::Ref(name)) => Some(name),
            Ok(Node::Link { id: _, values: _ }) => {
                return Err(about_link(index, " has a compound identifier"));
            },
            Err(error) => return Err(error),
        }
    };
    let items = match read_list(store, markers, body.target) {
        Ok(items) => items,
        Err(error) => return Err(error),
    };
    if items.len() == 0 {
        let values: Vec<Node> = Vec::new();
        assert(trees(values@) =~= Seq::<Tree>::empty());
        return Ok(Node::Link { id, values });
    }
    if depth == 0 {
        return Err(about_link(index, " contains itself"));
    }
    match read_nodes(store, markers, &items, depth - 1) {
        Ok(values) => Ok(Node::Link { id, values }),
        Err(error) => Err(error),
    }
}

/// The first fault among several trees is the fault of them all.
proof fn lemma_first_fault(
    network: Network,
    markers: Markers,
    items: Seq<LinkIndex>,
    depth: nat,
    count: int,
)
    requires
        0 <= count <= items.len(),
        trees_at(network, markers, items.take(count), depth) is Err,
    ensures
        trees_at(network, markers, items, depth) == trees_at(
            network,
            markers,
            items.take(count),
            depth,
        ),
    decreases items.len() - count,
{
    if count < items.len() {
        assert(items.take(count + 1).drop_last() =~= items.take(count));
        lemma_first_fault(network, markers, items, depth, count + 1);
    } else {
        assert(items.take(count) =~= items);
    }
}

/// Reads several nodes out of the network.
fn read_nodes(store: &LinkStore, markers: Markers, items: &Vec<LinkIndex>, depth: usize) -> (result:
    Result<Vec<Node>, Error>)
    ensures
        match trees_at(store@, markers, items@, depth as nat) {
            Ok(expected) => result matches Ok(nodes) && trees(nodes@) == expected,
            Err(fault) => result matches Err(error) && error@ == fault,
        },
    decreases depth, items@.len() + 1,
{
    let mut nodes: Vec<Node> = Vec::new();
    let mut index: usize = 0;
    assert(items@.take(0) =~= Seq::<usize>::empty());
    assert(trees(nodes@) =~= Seq::<Tree>::empty());
    while index < items.len()
        invariant
            index <= items@.len(),
            trees_at(store@, markers, items@.take(index as int), depth as nat) == Ok::<
                Seq<Tree>,
                Fault,
            >(trees(nodes@)),
        decreases items@.len() - index,
    {
        let ghost before = nodes@;
        proof {
            assert(items@.take(index + 1).drop_last() =~= items@.take(index as int));
        }
        match read_node(store, markers, items[index], depth) {
            Ok(node) => {
                nodes.push(node);
                proof {
                    assert(nodes@.drop_last() =~= before);
                }
            },
            Err(error) => {
                proof {
                    lemma_first_fault(store@, markers, items@, depth as nat, index + 1);
                }
                return Err(error);
            },
        }
        index = index + 1;
    }
    assert(items@.take(index as int) =~= items@);
    Ok(nodes)
}

/// Projects a document root back out of the network.
///
/// # Errors
///
/// Returns [`Error::Format`] when the link is not a document written by
/// [`store_document`].
pub fn read_document(store: &LinkStore, root: LinkIndex) -> (result: Result<Document, Error>)
    ensures
        match document_at(store@, root) {
            Ok(expected) => result matches Ok(document) && trees(document@) == expected,
            Err(fault) => result matches Err(error) && error@ == fault,
        },
{
    let markers = match expect_markers(store) {
        Ok(markers) => markers,
        Err(error) => return Err(error),
    };
    let doublet: Doublet = match store.get(root) {
        Some(doublet) => doublet,
        None => return Err(about_link(root, " is not in the store")),
    };
    if doublet.source != markers.document {
        return Err(about_link(root, " is not a Links Notation document"));
    }
    match read_list(store, markers, doublet.target) {
        Ok(items) => read_nodes(store, markers, &items, store.len()),
        Err(error) => Err(error),
    }
}

} // verus!
