//! An associative link network: the universal data model everything is stored
//! in.
//!
//! Every fact is a *doublet*: a link with a source and a target, both of which
//! are themselves links.
//!
//! * **Creation deduplicates.** Creating a doublet that already exists returns
//!   the existing link, so identical structures are stored once no matter how
//!   often they occur.
//! * **Everything is addressable.** A sample, a placement, a note and the whole
//!   composition are all link indices, so any of them can be a value of any
//!   other fact.

use std::collections::HashMap;
use vstd::hash_map::StringHashMap;
use vstd::prelude::*;

use crate::text::{decimal, decimal_text};

verus! {

broadcast use vstd::std_specs::hash::group_hash_axioms;

/// Address of a link. Index `0` is the null link and is never stored.
pub type LinkIndex = usize;

/// The null link: "no link".
pub const NULL: usize = 0;

/// A link with a source and a target.
#[derive(Clone, Copy, Debug, PartialEq, Eq, Hash, Structural)]
pub struct Doublet {
    /// The link this one points from.
    pub source: LinkIndex,
    /// The link this one points to.
    pub target: LinkIndex,
}

impl Doublet {
    /// Whether the doublet points at an address in both directions.
    pub open spec fn points_at(self, index: int) -> bool {
        self.source == index && self.target == index
    }

    /// A doublet from its parts.
    pub fn new(source: LinkIndex, target: LinkIndex) -> (doublet: Self)
        ensures
            doublet == (Doublet { source, target }),
    {
        Doublet { source, target }
    }

    /// Whether the doublet points at itself in both directions.
    pub fn is_point(&self, index: LinkIndex) -> (point: bool)
        ensures
            point == self.points_at(index as int),
    {
        self.source == index && self.target == index
    }
}

/// The number a doublet is looked up by.
pub open spec fn key_of(doublet: Doublet) -> int {
    doublet.source * 0x1_0000_0000_0000_0000 + doublet.target
}

/// The last address at which a doublet is stored.
pub open spec fn found(links: Seq<Doublet>, doublet: Doublet) -> Option<LinkIndex>
    decreases links.len(),
{
    if links.len() == 0 {
        None
    } else if links.last() == doublet {
        Some(links.len() as usize)
    } else {
        found(links.drop_last(), doublet)
    }
}

/// Whether no doublet occurs twice, but for a point that an earlier link already
/// pointed at from both ends.
pub open spec fn stored_once(links: Seq<Doublet>) -> bool {
    forall|i: int, j: int|
        0 <= i < j < links.len() && !(#[trigger] links[j]).points_at(j + 1) ==> (#[trigger]
        links[i]) != links[j]
}

/// The addresses that a test picks, in creation order.
pub open spec fn picked(links: Seq<Doublet>, test: spec_fn(int, Doublet) -> bool) -> Seq<LinkIndex>
    decreases links.len(),
{
    if links.len() == 0 {
        Seq::empty()
    } else {
        let before = picked(links.drop_last(), test);
        if test(links.len() as int, links.last()) {
            before.push(links.len() as usize)
        } else {
            before
        }
    }
}

/// One line of the link table.
pub open spec fn line(index: nat, doublet: Doublet) -> Seq<char> {
    decimal(index) + seq![':', ' '] + decimal(doublet.source as nat) + seq![' '] + decimal(
        doublet.target as nat,
    ) + seq!['\n']
}

/// The link table: a line for every link.
pub open spec fn table(links: Seq<Doublet>) -> Seq<char>
    decreases links.len(),
{
    if links.len() == 0 {
        Seq::empty()
    } else {
        table(links.drop_last()) + line(links.len(), links.last())
    }
}

/// What a [`LinkStore`] holds.
#[verifier::ext_equal]
pub struct Network {
    /// The doublets, the one at address `i` standing at position `i - 1`.
    pub links: Seq<Doublet>,
    /// The names of the links that are symbols.
    pub names: Map<LinkIndex, Seq<char>>,
    /// The symbols by name.
    pub symbols: Map<Seq<char>, LinkIndex>,
}

impl Network {
    /// The network without links.
    pub open spec fn empty() -> Network {
        Network { links: Seq::empty(), names: Map::empty(), symbols: Map::empty() }
    }

    /// The doublet at an address.
    pub open spec fn at(self, index: int) -> Option<Doublet> {
        if 1 <= index <= self.links.len() {
            Some(self.links[index - 1])
        } else {
            None
        }
    }

    /// Whether the link at an address points at itself.
    pub open spec fn point(self, index: int) -> bool {
        self.at(index) matches Some(doublet) && doublet.points_at(index)
    }

    /// Whether names and symbols are inverse to each other and every symbol is
    /// a point.
    pub open spec fn sound(self) -> bool {
        &&& self.links.len() <= usize::MAX
        &&& forall|name: Seq<char>| #[trigger]
            self.symbols.contains_key(name) ==> {
                &&& self.names.contains_key(self.symbols[name])
                &&& self.names[self.symbols[name]] == name
            }
        &&& forall|index: LinkIndex| #[trigger]
            self.names.contains_key(index) ==> {
                &&& self.symbols.contains_key(self.names[index])
                &&& self.symbols[self.names[index]] == index
                &&& self.point(index as int)
            }
    }

    /// The network with one more point, and the address of that point.
    pub open spec fn with_point(self) -> (Network, LinkIndex) {
        let index = (self.links.len() + 1) as usize;
        (Network { links: self.links.push(Doublet { source: index, target: index }), ..self }, index)
    }

    /// The network with a doublet in it, and the address of that doublet.
    pub open spec fn with_link(self, source: LinkIndex, target: LinkIndex) -> (Network, LinkIndex) {
        let doublet = Doublet { source, target };
        match found(self.links, doublet) {
            Some(index) => (self, index),
            None => (
                Network { links: self.links.push(doublet), ..self },
                (self.links.len() + 1) as usize,
            ),
        }
    }

    /// The network with a symbol in it, and the address of that symbol.
    pub open spec fn with_symbol(self, name: Seq<char>) -> (Network, LinkIndex) {
        if self.symbols.contains_key(name) {
            (self, self.symbols[name])
        } else {
            let (network, index) = self.with_point();
            (
                Network {
                    names: network.names.insert(index, name),
                    symbols: network.symbols.insert(name, index),
                    ..network
                },
                index,
            )
        }
    }

    /// The network with a left-associated sequence in it, and the address of
    /// that sequence.
    pub open spec fn with_sequence(self, elements: Seq<LinkIndex>) -> (Network, LinkIndex)
        decreases elements.len(),
    {
        if elements.len() == 0 {
            (self, NULL)
        } else if elements.len() == 1 {
            (self, elements[0])
        } else {
            let (network, accumulated) = self.with_sequence(elements.drop_last());
            network.with_link(accumulated, elements.last())
        }
    }

    /// Whether the description of a link comes to its end within a number of
    /// steps down. It does within as many steps as there are links, unless a
    /// link that is no symbol and no point leads back to itself.
    pub open spec fn settles(self, index: LinkIndex, depth: nat) -> bool
        decreases depth,
    {
        if index == NULL || self.names.contains_key(index) {
            true
        } else {
            match self.at(index as int) {
                None => true,
                Some(doublet) => {
                    ||| doublet.points_at(index as int)
                    ||| {
                        &&& depth > 0
                        &&& self.settles(doublet.source, (depth - 1) as nat)
                        &&& self.settles(doublet.target, (depth - 1) as nat)
                    }
                },
            }
        }
    }

    /// The description of a link, followed for a number of steps down.
    pub open spec fn description(self, index: LinkIndex, depth: nat) -> Seq<char>
        decreases depth,
    {
        if index == NULL {
            "null"@
        } else if self.names.contains_key(index) {
            self.names[index]
        } else {
            match self.at(index as int) {
                None => "missing("@ + decimal(index as nat) + seq![')'],
                Some(doublet) => {
                    if doublet.points_at(index as int) || depth == 0 {
                        "point("@ + decimal(index as nat) + seq![')']
                    } else {
                        decimal(index as nat) + ": ("@ + self.description(
                            doublet.source,
                            (depth - 1) as nat,
                        ) + seq![' '] + self.description(doublet.target, (depth - 1) as nat)
                            + seq![')']
                    }
                },
            }
        }
    }
}

/// An associative network of doublets with interned symbols.
pub struct LinkStore {
    doublets: Vec<Doublet>,
    lookup: HashMap<u128, LinkIndex>,
    names: HashMap<LinkIndex, String>,
    symbols: StringHashMap<LinkIndex>,
}

impl View for LinkStore {
    type V = Network;

    closed spec fn view(&self) -> Network {
        Network {
            links: self.doublets@,
            names: Map::new(
                |index: LinkIndex| self.names@.contains_key(index),
                |index: LinkIndex| self.names@[index]@,
            ),
            symbols: self.symbols@,
        }
    }
}

/// The number a doublet is looked up by.
fn key(doublet: Doublet) -> (number: u128)
    ensures
        number == key_of(doublet),
{
    (doublet.source as u128) * 0x1_0000_0000_0000_0000 + doublet.target as u128
}

impl LinkStore {
    /// Whether the index agrees with the doublets.
    pub closed spec fn indexed(&self) -> bool {
        forall|doublet: Doublet| #[trigger]
            found(self.doublets@, doublet) == (if self.lookup@.contains_key(
                key_of(doublet) as u128,
            ) {
                Some(self.lookup@[key_of(doublet) as u128])
            } else {
                None
            })
    }

    /// Whether the store holds together.
    pub open spec fn wf(&self) -> bool {
        &&& self.indexed()
        &&& self@.sound()
        &&& stored_once(self@.links)
    }

    /// An empty network.
    pub fn new() -> (store: Self)
        ensures
            store.wf(),
            store@ == Network::empty(),
    {
        let store = LinkStore {
            doublets: Vec::new(),
            lookup: HashMap::new(),
            names: HashMap::new(),
            symbols: StringHashMap::new(),
        };
        assert(store@ =~= Network::empty());
        store
    }

    /// Number of links in the network.
    pub fn len(&self) -> (length: usize)
        ensures
            length == self@.links.len(),
    {
        self.doublets.len()
    }

    /// Whether the network holds no links.
    pub fn is_empty(&self) -> (empty: bool)
        ensures
            empty == (self@.links.len() == 0),
    {
        self.doublets.len() == 0
    }

    /// Appends a doublet, which becomes the one that a search finds.
    fn append(&mut self, doublet: Doublet) -> (index: LinkIndex)
        requires
            old(self).indexed(),
            old(self)@.links.len() < usize::MAX,
        ensures
            final(self).indexed(),
            final(self)@ == (Network { links: old(self)@.links.push(doublet), ..old(self)@ }),
            index == old(self)@.links.len() + 1,
    {
        let index: usize = self.doublets.len() + 1;
        let number: u128 = key(doublet);
        let ghost before = self.doublets@;
        self.doublets.push(doublet);
        self.lookup.insert(number, index);
        proof {
            assert(self.doublets@.drop_last() =~= before);
            assert forall|other: Doublet| #[trigger]
                found(self.doublets@, other) == (if self.lookup@.contains_key(
                    key_of(other) as u128,
                ) {
                    Some(self.lookup@[key_of(other) as u128])
                } else {
                    None
                }) by {
                assert(found(before, other) == found(before, other));
                assert(0 <= key_of(other) <= u128::MAX);
                if other != doublet {
                    assert(key_of(other) != key_of(doublet));
                }
            }
            assert(self@ =~= (Network { links: old(self)@.links.push(doublet), ..old(self)@ }));
        }
        index
    }

    /// Creates a link pointing at itself, which is how values and markers are
    /// represented. Every call returns a new address.
    pub fn create_point(&mut self) -> (index: LinkIndex)
        requires
            old(self).wf(),
            old(self)@.links.len() < usize::MAX,
        ensures
            final(self).wf(),
            (final(self)@, index) == old(self)@.with_point(),
    {
        let index: usize = self.doublets.len() + 1;
        self.append(Doublet::new(index, index))
    }

    /// Creates a doublet, returning the existing link when an identical one is
    /// already stored.
    ///
    /// This is the deduplicating primitive the whole model rests on.
    pub fn create(&mut self, source: LinkIndex, target: LinkIndex) -> (index: LinkIndex)
        requires
            old(self).wf(),
            old(self)@.links.len() < usize::MAX || found(
                old(self)@.links,
                Doublet { source, target },
            ) is Some,
        ensures
            final(self).wf(),
            (final(self)@, index) == old(self)@.with_link(source, target),
    {
        match self.find(source, target) {
            Some(existing) => existing,
            None => {
                proof {
                    lemma_found_is_there(self@.links, Doublet { source, target });
                }
                self.append(Doublet::new(source, target))
            },
        }
    }

    /// The address of an existing doublet, if it is stored.
    pub fn find(&self, source: LinkIndex, target: LinkIndex) -> (index: Option<LinkIndex>)
        requires
            self.wf(),
        ensures
            index == found(self@.links, Doublet { source, target }),
    {
        let doublet = Doublet::new(source, target);
        let number: u128 = key(doublet);
        assert(found(self.doublets@, doublet) == found(self@.links, doublet));
        match self.lookup.get(&number) {
            Some(existing) => Some(*existing),
            None => None,
        }
    }

    /// Interns a named point, returning the same address for the same name.
    pub fn symbol(&mut self, name: &str) -> (index: LinkIndex)
        requires
            old(self).wf(),
            old(self)@.links.len() < usize::MAX || old(self)@.symbols.contains_key(name@),
        ensures
            final(self).wf(),
            (final(self)@, index) == old(self)@.with_symbol(name@),
    {
        if let Some(existing) = self.symbols.get(name) {
            return *existing;
        }
        let index: usize = self.create_point();
        let ghost middle = self@;
        self.symbols.insert(name.to_string(), index);
        self.names.insert(index, name.to_string());
        proof {
            assert(self@.names =~= middle.names.insert(index, name@));
            assert(self@ =~= old(self)@.with_symbol(name@).0);
        }
        index
    }

    /// The address of a symbol that has already been interned.
    pub fn find_symbol(&self, name: &str) -> (index: Option<LinkIndex>)
        ensures
            index == (if self@.symbols.contains_key(name@) {
                Some(self@.symbols[name@])
            } else {
                None
            }),
    {
        match self.symbols.get(name) {
            Some(existing) => Some(*existing),
            None => None,
        }
    }

    /// The name of a symbol, if the link is one.
    pub fn name(&self, index: LinkIndex) -> (name: Option<&str>)
        ensures
            match name {
                Some(text) => self@.names.contains_key(index) && text@ == self@.names[index],
                None => !self@.names.contains_key(index),
            },
    {
        match self.names.get(&index) {
            Some(text) => Some(text.as_str()),
            None => None,
        }
    }

    /// The doublet stored at an address.
    pub fn get(&self, index: LinkIndex) -> (doublet: Option<Doublet>)
        ensures
            doublet == self@.at(index as int),
    {
        if index == NULL || index > self.doublets.len() {
            None
        } else {
            Some(self.doublets[index - 1])
        }
    }

    /// Source of the link at an address.
    pub fn source(&self, index: LinkIndex) -> (source: LinkIndex)
        ensures
            source == (match self@.at(index as int) {
                Some(doublet) => doublet.source,
                None => NULL,
            }),
    {
        match self.get(index) {
            Some(doublet) => doublet.source,
            None => NULL,
        }
    }

    /// Target of the link at an address.
    pub fn target(&self, index: LinkIndex) -> (target: LinkIndex)
        ensures
            target == (match self@.at(index as int) {
                Some(doublet) => doublet.target,
                None => NULL,
            }),
    {
        match self.get(index) {
            Some(doublet) => doublet.target,
            None => NULL,
        }
    }

    /// Whether the link at an address points at itself.
    pub fn is_point(&self, index: LinkIndex) -> (point: bool)
        ensures
            point == self@.point(index as int),
    {
        match self.get(index) {
            Some(doublet) => doublet.is_point(index),
            None => false,
        }
    }

    /// Every address in the network, in creation order.
    pub fn indices(&self) -> (indices: Vec<LinkIndex>)
        ensures
            indices@ == Seq::new(self@.links.len(), |i: int| (i + 1) as usize),
    {
        let mut indices: Vec<usize> = Vec::new();
        let mut index: usize = 0;
        while index < self.doublets.len()
            invariant
                index <= self.doublets@.len(),
                indices@ == Seq::new(index as nat, |i: int| (i + 1) as usize),
            decreases self.doublets@.len() - index,
        {
            index = index + 1;
            indices.push(index);
            assert(indices@ =~= Seq::new(index as nat, |i: int| (i + 1) as usize));
        }
        indices
    }

    /// Every link in the network as `(address, doublet)` pairs.
    pub fn iter(&self) -> (pairs: Vec<(LinkIndex, Doublet)>)
        ensures
            pairs@ == Seq::new(self@.links.len(), |i: int| ((i + 1) as usize, self@.links[i])),
    {
        let mut pairs: Vec<(usize, Doublet)> = Vec::new();
        let mut index: usize = 0;
        while index < self.doublets.len()
            invariant
                index <= self.doublets@.len(),
                pairs@ == Seq::new(index as nat, |i: int| ((i + 1) as usize, self.doublets@[i])),
            decreases self.doublets@.len() - index,
        {
            pairs.push((index + 1, self.doublets[index]));
            index = index + 1;
            assert(pairs@ =~= Seq::new(
                index as nat,
                |i: int| ((i + 1) as usize, self.doublets@[i]),
            ));
        }
        assert(pairs@ =~= Seq::new(
            self@.links.len(),
            |i: int| ((i + 1) as usize, self@.links[i]),
        ));
        pairs
    }

    /// All links whose source is `source`.
    pub fn by_source(&self, source: LinkIndex) -> (indices: Vec<LinkIndex>)
        ensures
            indices@ == picked(
                self@.links,
                |index: int, doublet: Doublet|
                    doublet.source == source && !doublet.points_at(index),
            ),
    {
        let ghost test = |index: int, doublet: Doublet|
            doublet.source == source && !doublet.points_at(index);
        let mut indices: Vec<usize> = Vec::new();
        let mut index: usize = 0;
        while index < self.doublets.len()
            invariant
                index <= self.doublets@.len(),
                indices@ == picked(self.doublets@.take(index as int), test),
                test == |index: int, doublet: Doublet|
                    doublet.source == source && !doublet.points_at(index),
            decreases self.doublets@.len() - index,
        {
            let doublet: Doublet = self.doublets[index];
            assert(self.doublets@.take(index + 1).drop_last() =~= self.doublets@.take(
                index as int,
            ));
            index = index + 1;
            if doublet.source == source && !doublet.is_point(index) {
                indices.push(index);
            }
        }
        assert(self.doublets@.take(index as int) =~= self@.links);
        indices
    }

    /// All links whose target is `target`.
    pub fn by_target(&self, target: LinkIndex) -> (indices: Vec<LinkIndex>)
        ensures
            indices@ == picked(
                self@.links,
                |index: int, doublet: Doublet|
                    doublet.target == target && !doublet.points_at(index),
            ),
    {
        let ghost test = |index: int, doublet: Doublet|
            doublet.target == target && !doublet.points_at(index);
        let mut indices: Vec<usize> = Vec::new();
        let mut index: usize = 0;
        while index < self.doublets.len()
            invariant
                index <= self.doublets@.len(),
                indices@ == picked(self.doublets@.take(index as int), test),
                test == |index: int, doublet: Doublet|
                    doublet.target == target && !doublet.points_at(index),
            decreases self.doublets@.len() - index,
        {
            let doublet: Doublet = self.doublets[index];
            assert(self.doublets@.take(index + 1).drop_last() =~= self.doublets@.take(
                index as int,
            ));
            index = index + 1;
            if doublet.target == target && !doublet.is_point(index) {
                indices.push(index);
            }
        }
        assert(self.doublets@.take(index as int) =~= self@.links);
        indices
    }

    /// Folds a sequence of links into left-associated doublets.
    ///
    /// An empty sequence yields [`NULL`] and a single element yields itself,
    /// so the encoding is total.
    pub fn sequence(&mut self, elements: &[LinkIndex]) -> (index: LinkIndex)
        requires
            old(self).wf(),
            old(self)@.with_sequence(elements@).0.links.len() <= usize::MAX,
        ensures
            final(self).wf(),
            (final(self)@, index) == old(self)@.with_sequence(elements@),
    {
        let length: usize = elements.len();
        if length == 0 {
            return NULL;
        }
        let mut accumulated: usize = elements[0];
        let mut position: usize = 1;
        assert((self@, accumulated) == self@.with_sequence(elements@.take(1)));
        while position < length
            invariant
                length == elements@.len(),
                1 <= position <= length,
                self.wf(),
                old(self)@.with_sequence(elements@).0.links.len() <= usize::MAX,
                (self@, accumulated) == old(self)@.with_sequence(elements@.take(position as int)),
            decreases length - position,
        {
            proof {
                assert(elements@.take(position + 1).drop_last() =~= elements@.take(
                    position as int,
                ));
                lemma_sequence_prefix_len(old(self)@, elements@, position + 1);
            }
            accumulated = self.create(accumulated, elements[position]);
            position = position + 1;
        }
        assert(elements@.take(position as int) =~= elements@);
        accumulated
    }

    /// A description followed for a number of steps down.
    fn describe_within(&self, index: LinkIndex, depth: usize) -> (text: String)
        requires
            self@.settles(index, depth as nat),
        ensures
            text@ == self@.description(index, depth as nat),
        decreases depth,
    {
        if index == NULL {
            return "null".to_string();
        }
        if let Some(name) = self.name(index) {
            return name.to_string();
        }
        match self.get(index) {
            None => {
                let mut text = "missing(".to_string();
                text.append(decimal_text(index as u64).as_str());
                text.push(')');
                assert(text@ =~= "missing("@ + decimal(index as nat) + seq![')']);
                text
            },
            Some(doublet) => {
                if doublet.is_point(index) {
                    let mut text = "point(".to_string();
                    text.append(decimal_text(index as u64).as_str());
                    text.push(')');
                    assert(text@ =~= "point("@ + decimal(index as nat) + seq![')']);
                    text
                } else {
                    let mut text = decimal_text(index as u64);
                    text.append(": (");
                    text.append(self.describe_within(doublet.source, depth - 1).as_str());
                    text.push(' ');
                    text.append(self.describe_within(doublet.target, depth - 1).as_str());
                    text.push(')');
                    assert(text@ =~= self@.description(index, depth as nat));
                    text
                }
            },
        }
    }

    /// A stable, human-readable rendering of one link, used by diagnostics.
    ///
    /// The links below it that are no symbols and no points must not lead back
    /// to it: such a rendering would have no end.
    pub fn describe(&self, index: LinkIndex) -> (text: String)
        requires
            self@.settles(index, self@.links.len()),
        ensures
            text@ == self@.description(index, self@.links.len()),
    {
        self.describe_within(index, self.doublets.len())
    }

    /// The link table: a line `index: source target` for every link.
    pub fn to_string(&self) -> (text: String)
        ensures
            text@ == table(self@.links),
    {
        let mut text = String::new();
        let mut index: usize = 0;
        assert(text@ =~= table(self.doublets@.take(0)));
        while index < self.doublets.len()
            invariant
                index <= self.doublets@.len(),
                text@ == table(self.doublets@.take(index as int)),
            decreases self.doublets@.len() - index,
        {
            let doublet: Doublet = self.doublets[index];
            let ghost before = text@;
            assert(self.doublets@.take(index + 1).drop_last() =~= self.doublets@.take(
                index as int,
            ));
            index = index + 1;
            text.append(decimal_text(index as u64).as_str());
            text.push(':');
            text.push(' ');
            text.append(decimal_text(doublet.source as u64).as_str());
            text.push(' ');
            text.append(decimal_text(doublet.target as u64).as_str());
            text.push('\n');
            assert(text@ =~= before + line(index as nat, doublet));
        }
        assert(self.doublets@.take(index as int) =~= self@.links);
        text
    }
}

impl Default for LinkStore {
    /// An empty network.
    fn default() -> (store: Self)
        ensures
            store.wf(),
            store@ == Network::empty(),
    {
        LinkStore::new()
    }
}

/// Whether everything that can be found in one network is found at the same
/// address in another.
pub open spec fn finds_the_same(first: Network, second: Network) -> bool {
    forall|doublet: Doublet| #[trigger]
        found(first.links, doublet) is Some ==> found(second.links, doublet) == found(
            first.links,
            doublet,
        )
}

/// What a search finds is there.
pub proof fn lemma_found_is_there(links: Seq<Doublet>, doublet: Doublet)
    requires
        links.len() <= usize::MAX,
    ensures
        match found(links, doublet) {
            Some(index) => 1 <= index <= links.len() && links[index - 1] == doublet,
            None => forall|i: int| 0 <= i < links.len() ==> links[i] != doublet,
        },
    decreases links.len(),
{
    if links.len() > 0 && links.last() != doublet {
        lemma_found_is_there(links.drop_last(), doublet);
        assert(forall|i: int| 0 <= i < links.len() - 1 ==> links.drop_last()[i] == links[i]);
    }
}

/// Creation deduplicates: a doublet that was created stands at the address that
/// creation returned, and creating it again returns that address and stores
/// nothing.
pub proof fn law_creation_deduplicates(network: Network, source: LinkIndex, target: LinkIndex)
    requires
        network.links.len() < usize::MAX,
    ensures
        ({
            let (after, index) = network.with_link(source, target);
            &&& after.at(index as int) == Some(Doublet { source, target })
            &&& after.with_link(source, target) == (after, index)
        }),
{
    lemma_found_is_there(network.links, Doublet { source, target });
}

/// Every point that is created is new, points at itself, and is the one that a
/// search for it finds.
pub proof fn law_points_are_new(network: Network)
    requires
        network.links.len() < usize::MAX,
    ensures
        ({
            let (after, index) = network.with_point();
            &&& network.at(index as int) is None
            &&& after.point(index as int)
            &&& after.with_link(index, index) == (after, index)
        }),
{
}

/// Symbols are interned by name: a name leads to one point, which bears that
/// name, and interning it again returns that point and stores nothing.
pub proof fn law_symbols_are_interned(network: Network, name: Seq<char>)
    requires
        network.sound(),
        network.links.len() < usize::MAX,
    ensures
        ({
            let (after, index) = network.with_symbol(name);
            &&& after.sound()
            &&& after.with_symbol(name) == (after, index)
            &&& after.names.contains_key(index)
            &&& after.names[index] == name
            &&& after.point(index as int)
        }),
{
    let (after, index) = network.with_symbol(name);
    if !network.symbols.contains_key(name) {
        assert forall|other: LinkIndex| #[trigger] after.names.contains_key(other) implies {
            &&& after.symbols.contains_key(after.names[other])
            &&& after.symbols[after.names[other]] == other
            &&& after.point(other as int)
        } by {
            if other != index {
                assert(network.names.contains_key(other));
            }
        }
    }
}

/// Nothing that is stored ever moves: whatever is created, every link keeps its
/// address and every symbol its name.
pub proof fn law_creation_keeps_what_is_stored(
    network: Network,
    source: LinkIndex,
    target: LinkIndex,
    name: Seq<char>,
)
    requires
        network.sound(),
        network.links.len() < usize::MAX,
    ensures
        network.links.is_prefix_of(network.with_point().0.links),
        network.links.is_prefix_of(network.with_link(source, target).0.links),
        network.links.is_prefix_of(network.with_symbol(name).0.links),
        network.names.submap_of(network.with_symbol(name).0.names),
        network.symbols.submap_of(network.with_symbol(name).0.symbols),
{
    let index = network.with_point().1;
    if network.names.contains_key(index) {
        assert(network.point(index as int));
    }
}

/// Creation leaves what can be found where it was found.
pub proof fn lemma_link_finds_the_same(network: Network, source: LinkIndex, target: LinkIndex)
    ensures
        finds_the_same(network, network.with_link(source, target).0),
{
    let after = network.with_link(source, target).0;
    assert forall|doublet: Doublet| #[trigger] found(network.links, doublet) is Some implies found(
        after.links,
        doublet,
    ) == found(network.links, doublet) by {
        if after != network {
            assert(after.links.drop_last() =~= network.links);
        }
    }
}

/// A sequence that was encoded is found again in every network that finds the
/// same doublets.
proof fn lemma_sequence_is_found(network: Network, elements: Seq<LinkIndex>, later: Network)
    requires
        network.links.len() + elements.len() <= usize::MAX,
        finds_the_same(network.with_sequence(elements).0, later),
    ensures
        later.with_sequence(elements) == (later, network.with_sequence(elements).1),
        network.with_sequence(elements).0.links.len() <= network.links.len() + if elements.len()
            <= 1 {
            0
        } else {
            elements.len() - 1
        },
    decreases elements.len(),
{
    if elements.len() > 1 {
        let front = elements.drop_last();
        let (middle, accumulated) = network.with_sequence(front);
        let (after, index) = middle.with_link(accumulated, elements.last());
        let doublet = Doublet { source: accumulated, target: elements.last() };
        lemma_link_finds_the_same(middle, accumulated, elements.last());
        assert(finds_the_same(middle, later)) by {
            assert forall|other: Doublet| #[trigger]
                found(middle.links, other) is Some implies found(later.links, other) == found(
                middle.links,
                other,
            ) by {
                assert(found(after.links, other) == found(middle.links, other));
            }
        }
        lemma_sequence_is_found(network, front, later);
        assert(found(after.links, doublet) == Some(index));
    }
}

/// Sequences share their prefixes: encoding a sequence again stores nothing, and
/// neither does encoding it without its last element, which leads to the source
/// of the whole.
pub proof fn law_sequences_share_their_prefixes(network: Network, elements: Seq<LinkIndex>)
    requires
        network.links.len() + elements.len() <= usize::MAX,
    ensures
        ({
            let (after, index) = network.with_sequence(elements);
            &&& after.with_sequence(elements) == (after, index)
            &&& after.links.len() <= network.links.len() + if elements.len() <= 1 {
                0
            } else {
                elements.len() - 1
            }
            &&& elements.len() >= 2 ==> {
                &&& after.at(index as int) == Some(
                    Doublet {
                        source: after.with_sequence(elements.drop_last()).1,
                        target: elements.last(),
                    },
                )
                &&& after.with_sequence(elements.drop_last()).0 == after
            }
        }),
{
    let (after, index) = network.with_sequence(elements);
    lemma_sequence_is_found(network, elements, after);
    if elements.len() >= 2 {
        let (middle, accumulated) = network.with_sequence(elements.drop_last());
        lemma_link_finds_the_same(middle, accumulated, elements.last());
        lemma_sequence_is_found(network, elements.drop_last(), after);
        lemma_sequence_is_found(network, elements.drop_last(), middle);
        law_creation_deduplicates(middle, accumulated, elements.last());
    }
}

/// What encoding a sequence does to a network: links are added behind the others,
/// and what can be found is found where it was.
proof fn lemma_sequence_grows(network: Network, elements: Seq<LinkIndex>)
    ensures
        ({
            let after = network.with_sequence(elements).0;
            &&& network.links.is_prefix_of(after.links)
            &&& after.names == network.names
            &&& after.symbols == network.symbols
            &&& finds_the_same(network, after)
        }),
    decreases elements.len(),
{
    if elements.len() > 1 {
        let front = elements.drop_last();
        let (middle, accumulated) = network.with_sequence(front);
        let after = middle.with_link(accumulated, elements.last()).0;
        lemma_sequence_grows(network, front);
        lemma_link_finds_the_same(middle, accumulated, elements.last());
        assert forall|other: Doublet| #[trigger] found(network.links, other) is Some implies found(
            after.links,
            other,
        ) == found(network.links, other) by {
            assert(found(middle.links, other) == found(network.links, other));
        }
    }
}

/// The first elements of a sequence take no more links than all of them.
proof fn lemma_sequence_prefix_len(network: Network, elements: Seq<LinkIndex>, count: int)
    requires
        0 <= count <= elements.len(),
    ensures
        network.with_sequence(elements.take(count)).0.links.len() <= network.with_sequence(
            elements,
        ).0.links.len(),
    decreases elements.len() - count,
{
    if count < elements.len() {
        assert(elements.take(count + 1).drop_last() =~= elements.take(count));
        lemma_sequence_grows(network, elements.take(count));
        lemma_sequence_grows(network, elements.take(count + 1));
        lemma_sequence_prefix_len(network, elements, count + 1);
    } else {
        assert(elements.take(count) =~= elements);
    }
}

/// Two sequences of one length that a network holds at one address are the same.
proof fn lemma_sequences_told_apart(
    network: Network,
    first: Seq<LinkIndex>,
    second: Seq<LinkIndex>,
    index: LinkIndex,
)
    requires
        network.links.len() <= usize::MAX,
        first.len() == second.len() >= 1,
        network.with_sequence(first) == (network, index),
        network.with_sequence(second) == (network, index),
    ensures
        first == second,
    decreases first.len(),
{
    if first.len() == 1 {
        assert(first =~= second);
    } else {
        let (one, left) = network.with_sequence(first.drop_last());
        let (other, right) = network.with_sequence(second.drop_last());
        lemma_sequence_grows(network, first.drop_last());
        lemma_sequence_grows(network, second.drop_last());
        assert(one.links.len() <= network.links.len());
        assert(other.links.len() <= network.links.len());
        assert(one.links =~= network.links);
        assert(other.links =~= network.links);
        assert(one == network && other == network);
        lemma_found_is_there(network.links, Doublet { source: left, target: first.last() });
        lemma_found_is_there(network.links, Doublet { source: right, target: second.last() });
        lemma_sequences_told_apart(network, first.drop_last(), second.drop_last(), left);
        assert(first =~= first.drop_last().push(first.last()));
        assert(second =~= second.drop_last().push(second.last()));
    }
}

/// Different sequences of one length never share an address, however much was
/// stored between the one and the other.
pub proof fn law_sequences_are_told_apart(
    network: Network,
    first: Seq<LinkIndex>,
    later: Network,
    second: Seq<LinkIndex>,
)
    requires
        first.len() == second.len() >= 1,
        network.links.len() + first.len() <= usize::MAX,
        later.links.len() + second.len() <= usize::MAX,
        finds_the_same(network.with_sequence(first).0, later),
        network.with_sequence(first).1 == later.with_sequence(second).1,
    ensures
        first == second,
{
    let (stored, index) = network.with_sequence(first);
    let after = later.with_sequence(second).0;
    lemma_sequence_grows(later, second);
    assert forall|other: Doublet| #[trigger] found(stored.links, other) is Some implies found(
        after.links,
        other,
    ) == found(stored.links, other) by {
        assert(found(later.links, other) == found(stored.links, other));
    }
    lemma_sequence_is_found(network, first, after);
    lemma_sequence_is_found(later, second, after);
    lemma_sequences_told_apart(after, first, second, index);
}

/// Links that are picked are those that meet the test, each once, by their
/// addresses, which count from one and ascend.
pub proof fn law_links_that_meet_the_test_are_picked(
    links: Seq<Doublet>,
    test: spec_fn(int, Doublet) -> bool,
    index: LinkIndex,
)
    requires
        links.len() <= usize::MAX,
    ensures
        picked(links, test).contains(index) <==> 1 <= index <= links.len() && test(
            index as int,
            links[index - 1],
        ),
        forall|i: int, j: int|
            0 <= i < j < picked(links, test).len() ==> picked(links, test)[i] < picked(
                links,
                test,
            )[j],
    decreases links.len(),
{
    if links.len() > 0 {
        let front = links.drop_last();
        let before = picked(front, test);
        let all = picked(links, test);
        law_links_that_meet_the_test_are_picked(front, test, index);
        assert forall|i: int| 0 <= i < before.len() implies 1 <= #[trigger] before[i]
            <= front.len() by {
            law_links_that_meet_the_test_are_picked(front, test, before[i]);
            assert(before.contains(before[i]));
        }
        if 1 <= index <= front.len() {
            assert(front[index - 1] == links[index - 1]);
        }
        if before.contains(index) {
            let k = choose|k: int| 0 <= k < before.len() && before[k] == index;
            assert(all[k] == index);
        }
        if all.contains(index) && !before.contains(index) {
            let k = choose|k: int| 0 <= k < all.len() && all[k] == index;
            if k < before.len() {
                assert(before[k] == index);
            }
        }
        if all.len() > before.len() {
            assert(all[all.len() - 1] == links.len());
        }
    }
}

/// A doublet is found if and only if it is stored, at an address where it stands.
pub proof fn law_stored_doublets_are_found(links: Seq<Doublet>, doublet: Doublet)
    requires
        links.len() <= usize::MAX,
    ensures
        found(links, doublet) is Some <==> links.contains(doublet),
        found(links, doublet) matches Some(index) ==> 1 <= index <= links.len() && links[index - 1]
            == doublet,
{
    lemma_found_is_there(links, doublet);
}

/// A table has a line for each link: its address, a colon, its source and its
/// target, with spaces between them.
pub proof fn law_tables_have_a_line_for_each_link(links: Seq<Doublet>, doublet: Doublet)
    ensures
        table(links.push(doublet)) == table(links) + decimal(links.len() + 1) + seq![':', ' ']
            + decimal(doublet.source as nat) + seq![' '] + decimal(doublet.target as nat)
            + seq!['\n'],
        table(Seq::empty()) == Seq::<char>::empty(),
{
    assert(links.push(doublet).drop_last() =~= links);
    assert(table(links.push(doublet)) =~= table(links) + decimal(links.len() + 1) + seq![':', ' ']
        + decimal(doublet.source as nat) + seq![' '] + decimal(doublet.target as nat)
        + seq!['\n']);
}

/// A link is described by its address and by its source and its target, in
/// brackets; a name stands for what bears it.
pub proof fn law_links_are_described_by_their_ends(
    network: Network,
    index: LinkIndex,
    source: LinkIndex,
    target: LinkIndex,
    depth: nat,
)
    requires
        index != NULL,
        network.at(index as int) == Some(Doublet { source, target }),
        source != index || target != index,
    ensures
        network.names.contains_key(index) ==> network.description(index, depth)
            == network.names[index],
        !network.names.contains_key(index) ==> network.description(index, depth + 1) == decimal(
            index as nat,
        ) + seq![':', ' ', '('] + network.description(source, depth) + seq![' ']
            + network.description(target, depth) + seq![')'],
{
    reveal_strlit(": (");
    assert(": ("@ =~= seq![':', ' ', '(']);
}

} // verus!
