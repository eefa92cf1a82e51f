//! The network held in the `doublets` store.
//!
//! [`LinkStore`] keeps the network in process memory of its own. The same
//! doublets can be mirrored into the unit store of the `doublets` crate.
//!
//! The two directions are inverse to each other:
//!
//! * [`NativeStore::mirror`] replays a [`LinkStore`] in creation order, so every
//!   link keeps its address;
//! * [`NativeStore::snapshot`] replays the native store back into a
//!   [`LinkStore`], again in address order.
//!
//! A symbol is just a point natively, so names are carried along beside the
//! links. A store behind a memory-mapped file holds whatever is on disk, which
//! anyone can change; what is read from one is replayed by [`replay`], which holds
//! every link against its address.

use std::collections::HashMap;
use vstd::hash_map::StringHashMap;
use vstd::prelude::*;

use crate::associative::store::{
    found, lemma_found_is_there, stored_once, Doublet, LinkIndex, LinkStore, Network, NULL,
};
use crate::error::{Error, Fault};
use crate::text::{decimal, decimal_text};

use doublets::{Doublets, DoubletsExt};

verus! {

broadcast use vstd::std_specs::hash::group_hash_axioms;

/// The number that stands for "any link" in a query of the store, and so cannot
/// be searched for.
pub const ANY: u64 = 0xffff_ffff_ffff_fffc;

/// How many links a store holds at most: it reserves `2^20` records when it is
/// opened, of which it leaves the first page and its own header unused, and it
/// finds nothing again once it has to reserve more.
pub const CAPACITY: usize = 1_040_383;

/// The unit store of the `doublets` crate in process memory.
#[verifier::external_body]
pub struct Links {
    inner: doublets::unit::Store<
        u64,
        doublets::mem::Global<doublets::parts::LinkPart<u64>>,
    >,
}

/// What a unit store holds: the source and the target of every link, the one at
/// address `i` standing at position `i - 1`.
pub uninterp spec fn held(links: Links) -> Seq<(usize, usize)>;

/// `doublets::unit::Store::new` over `doublets::mem::Global`: a store in process
/// memory, which holds nothing yet. Whether there is memory for it is not said.
#[verifier::external_body]
fn open_in_memory() -> (opened: Result<Links, String>)
    ensures
        opened is Ok ==> held(opened->Ok_0).len() == 0,
{
    let memory = doublets::mem::Global::<doublets::parts::LinkPart<u64>>::new();
    match doublets::unit::Store::<u64, _>::new(memory) {
        Ok(inner) => Ok(Links { inner }),
        Err(error) => Err(error.to_string()),
    }
}

/// `Doublets::count`: how many links there are.
#[verifier::external_body]
fn count(links: &Links) -> (total: usize)
    ensures
        total == held(*links).len(),
{
    links.inner.count() as usize
}

/// `Doublets::create_point`: a link that points at itself, at the next address,
/// which it always gets as long as the first reservation has room for it.
#[verifier::external_body]
fn append_point(links: &mut Links) -> (index: Result<usize, String>)
    requires
        held(*old(links)).len() < CAPACITY,
    ensures
        index is Ok && index->Ok_0 == held(*old(links)).len() + 1,
        held(*final(links)) == held(*old(links)).push((index->Ok_0, index->Ok_0)),
{
    match links.inner.create_point() {
        Ok(index) => Ok(index as usize),
        Err(error) => Err(error.to_string()),
    }
}

/// `Doublets::create_link`: a link between two others, at the next address,
/// which it always gets as long as the first reservation has room for it.
#[verifier::external_body]
fn append_link(links: &mut Links, source: usize, target: usize) -> (index: Result<usize, String>)
    requires
        held(*old(links)).len() < CAPACITY,
    ensures
        index is Ok && index->Ok_0 == held(*old(links)).len() + 1,
        held(*final(links)) == held(*old(links)).push((source, target)),
{
    match links.inner.create_link(source as u64, target as u64) {
        Ok(index) => Ok(index as usize),
        Err(error) => Err(error.to_string()),
    }
}

/// `Doublets::search`: the address of a link with a source and a target. The
/// search goes through the links that have a source, so one from the null link
/// is never found. Of several equal links any may be found. Where the source or
/// the target is [`ANY`], what is found is some link that is there.
#[verifier::external_body]
fn search(links: &Links, source: usize, target: usize) -> (index: Option<usize>)
    ensures
        index is Some ==> 1 <= index->Some_0 <= held(*links).len(),
        source != ANY && target != ANY && index is Some ==> held(*links)[index->Some_0 - 1] == (
            source,
            target,
        ),
        source != ANY && target != ANY && index is None ==> source == 0 || !held(*links).contains(
            (source, target),
        ),
        source == 0 && target != ANY ==> index is None,
{
    match links.inner.search(source as u64, target as u64) {
        Some(index) => Some(index as usize),
        None => None,
    }
}

/// `Doublets::get_link`: the link at an address, if there is one.
#[verifier::external_body]
fn link_at(links: &Links, index: usize) -> (link: Option<(usize, usize)>)
    ensures
        link == (if 1 <= index <= held(*links).len() {
            Some(held(*links)[index - 1])
        } else {
            None
        }),
{
    match links.inner.get_link(index as u64) {
        Some(link) => Some((link.source as usize, link.target as usize)),
        None => None,
    }
}

/// `DoubletsExt::iter`: every link with its address, in the order of addresses.
#[verifier::external_body]
fn listing(links: &Links) -> (pairs: Vec<(usize, (usize, usize))>)
    ensures
        pairs@ == Seq::new(held(*links).len(), |i: int| ((i + 1) as usize, held(*links)[i])),
{
    links.inner.iter().map(|link| {
        (link.index as usize, (link.source as usize, link.target as usize))
    }).collect()
}

/// The doublets that a unit store holds.
pub open spec fn doublets_of(pairs: Seq<(usize, usize)>) -> Seq<Doublet> {
    Seq::new(pairs.len(), |i: int| Doublet { source: pairs[i].0, target: pairs[i].1 })
}

/// What is said of a link that would not keep its address.
pub open spec fn shifted(index: nat, done: Seq<char>, written: nat) -> Seq<char> {
    "link "@ + decimal(index) + " was "@ + done + " as "@ + decimal(written)
        + ", so addresses would shift"@
}

/// The first link that repeats an earlier one without being a point, and the
/// address of that earlier one.
pub open spec fn first_repeat(links: Seq<Doublet>) -> Option<(nat, LinkIndex)>
    decreases links.len(),
{
    if links.len() == 0 {
        None
    } else {
        match first_repeat(links.drop_last()) {
            Some(repeat) => Some(repeat),
            None => if links.last().points_at(links.len() as int) {
                None
            } else {
                match found(links.drop_last(), links.last()) {
                    Some(index) => Some((links.len(), index)),
                    None => None,
                }
            },
        }
    }
}

/// A network in which every doublet is stored once repeats none.
pub proof fn lemma_no_repeat(links: Seq<Doublet>)
    requires
        links.len() <= usize::MAX,
    ensures
        stored_once(links) <==> first_repeat(links) is None,
    decreases links.len(),
{
    if links.len() > 0 {
        let front = links.drop_last();
        lemma_no_repeat(front);
        lemma_found_is_there(front, links.last());
        assert forall|i: int, j: int|
            0 <= i < j < front.len() && !front[j].points_at(j + 1) && stored_once(
                links,
            ) implies front[i] != #[trigger] front[j] || #[trigger] front[i] != front[j] by {
            assert(links[i] == front[i] && links[j] == front[j]);
        }
        if first_repeat(links) is None {
            assert forall|i: int, j: int|
                0 <= i < j < links.len() && !(#[trigger] links[j]).points_at(j + 1) implies (
            #[trigger] links[i]) != links[j] by {
                if j < front.len() {
                    assert(links[i] == front[i] && links[j] == front[j]);
                } else {
                    assert(links[i] == front[i]);
                }
            }
        } else if first_repeat(front) is None {
            let index = found(front, links.last())->Some_0;
            assert(links[index - 1] == links[links.len() - 1]);
            assert(!links[links.len() - 1].points_at(links.len() - 1 + 1));
        }
    }
}

/// Says that a link would not keep its address.
fn shift(index: usize, done: &str, written: usize) -> (message: String)
    ensures
        message@ == shifted(index as nat, done@, written as nat),
{
    let mut message = "link ".to_string();
    message.append(decimal_text(index as u64).as_str());
    message.append(" was ");
    message.append(done);
    message.append(" as ");
    message.append(decimal_text(written as u64).as_str());
    message.append(", so addresses would shift");
    message
}

/// Holds the address a link was given against the one it has to keep.
pub fn keeps(index: LinkIndex, done: &str, written: LinkIndex) -> (kept: Result<(), Error>)
    ensures
        match kept {
            Ok(()) => written == index,
            Err(error) => {
                &&& written != index
                &&& error@ == Fault::Storage(shifted(index as nat, done@, written as nat))
            },
        },
{
    if written != index {
        return Err(Error::Storage(shift(index, done, written)));
    }
    Ok(())
}

/// Adds what the store complains of to what was being done.
pub fn refusal(action: &str, complaint: &str) -> (error: Error)
    ensures
        error@ == Fault::Storage(action@ + complaint@),
{
    let mut message = action.to_string();
    message.append(complaint);
    Error::Storage(message)
}

/// A doublet network held in the unit store of the `doublets` crate.
pub struct NativeStore {
    links: Links,
    names: HashMap<LinkIndex, String>,
    symbols: StringHashMap<LinkIndex>,
}

impl View for NativeStore {
    type V = Network;

    closed spec fn view(&self) -> Network {
        Network {
            links: doublets_of(held(self.links)),
            names: Map::new(
                |index: LinkIndex| self.names@.contains_key(index),
                |index: LinkIndex| self.names@[index]@,
            ),
            symbols: self.symbols@,
        }
    }
}

impl NativeStore {
    /// Whether the names and the symbols go with the links.
    pub open spec fn wf(&self) -> bool {
        self@.sound()
    }

    /// A network in an open store.
    fn with_memory(opened: Result<Links, String>) -> (store: Result<Self, Error>)
        requires
            opened is Ok ==> held(opened->Ok_0).len() == 0,
        ensures
            match store {
                Ok(native) => opened is Ok && native.wf() && native@ == Network::empty(),
                Err(error) => opened is Err && error@ == Fault::Storage(
                    "cannot open the link store: "@ + opened->Err_0@,
                ),
            },
    {
        match opened {
            Ok(links) => {
                let native = NativeStore {
                    links,
                    names: HashMap::new(),
                    symbols: StringHashMap::new(),
                };
                assert(native@ =~= Network::empty());
                Ok(native)
            },
            Err(complaint) => Err(refusal("cannot open the link store: ", complaint.as_str())),
        }
    }

    /// A network held in process memory.
    pub fn in_memory() -> (store: Result<Self, Error>)
        ensures
            match store {
                Ok(native) => native.wf() && native@ == Network::empty(),
                Err(error) => exists|complaint: Seq<char>|
                    error@ == Fault::Storage("cannot open the link store: "@ + complaint),
            },
    {
        NativeStore::with_memory(open_in_memory())
    }

    /// Number of links in the network.
    pub fn len(&self) -> (length: usize)
        ensures
            length == self@.links.len(),
    {
        count(&self.links)
    }

    /// Whether the network holds no links.
    pub fn is_empty(&self) -> (empty: bool)
        ensures
            empty == (self@.links.len() == 0),
    {
        self.len() == 0
    }

    /// Creates a link pointing at itself.
    pub fn create_point(&mut self) -> (index: Result<LinkIndex, Error>)
        requires
            old(self).wf(),
            old(self)@.links.len() < CAPACITY,
        ensures
            final(self).wf(),
            index matches Ok(index) && (final(self)@, index) == old(self)@.with_point(),
    {
        match append_point(&mut self.links) {
            Ok(index) => {
                proof {
                    assert(self@ =~= old(self)@.with_point().0);
                    lemma_still_sound(old(self)@, self@);
                }
                Ok(index)
            },
            Err(complaint) => Err(refusal("cannot create a point: ", complaint.as_str())),
        }
    }

    /// Appends a doublet.
    fn append(&mut self, source: LinkIndex, target: LinkIndex) -> (index: Result<LinkIndex, Error>)
        requires
            old(self).wf(),
            old(self)@.links.len() < CAPACITY,
        ensures
            final(self).wf(),
            final(self)@ == (Network {
                links: old(self)@.links.push(Doublet { source, target }),
                ..old(self)@
            }),
            index matches Ok(index) && index == old(self)@.links.len() + 1,
    {
        match append_link(&mut self.links, source, target) {
            Ok(index) => {
                proof {
                    assert(self@ =~= (Network {
                        links: old(self)@.links.push(Doublet { source, target }),
                        ..old(self)@
                    }));
                    lemma_still_sound(old(self)@, self@);
                }
                Ok(index)
            },
            Err(complaint) => {
                let mut action = "cannot create (".to_string();
                action.append(decimal_text(source as u64).as_str());
                action.append(" ");
                action.append(decimal_text(target as u64).as_str());
                action.append("): ");
                Err(refusal(action.as_str(), complaint.as_str()))
            },
        }
    }

    /// Creates a doublet, returning the existing link when an identical one is
    /// found.
    pub fn create(&mut self, source: LinkIndex, target: LinkIndex) -> (index: Result<
        LinkIndex,
        Error,
    >)
        requires
            old(self).wf(),
            old(self)@.links.len() < CAPACITY || (source != NULL && source != ANY && target != ANY
                && old(self)@.links.contains(Doublet { source, target })),
        ensures
            final(self).wf(),
            index is Ok,
            ({
                let doublet = Doublet { source, target };
                let links = old(self)@.links;
                let known = source != NULL && links.contains(doublet);
                &&& {
                    ||| final(self)@ == old(self)@ && 1 <= index->Ok_0 <= links.len()
                    ||| {
                        &&& final(self)@ == (Network { links: links.push(doublet), ..old(self)@ })
                        &&& index->Ok_0 == links.len() + 1
                    }
                }
                &&& source != ANY && target != ANY ==> {
                    &&& known <==> final(self)@.links.len() == links.len()
                    &&& final(self)@.at(index->Ok_0 as int) == Some(doublet)
                }
            }),
    {
        if let Some(existing) = self.find(source, target) {
            return Ok(existing);
        }
        self.append(source, target)
    }

    /// The address of an existing doublet, if one is found.
    ///
    /// A doublet whose source is the null link is not found, and [`ANY`] matches
    /// whatever is there.
    pub fn find(&self, source: LinkIndex, target: LinkIndex) -> (index: Option<LinkIndex>)
        ensures
            index is Some ==> 1 <= index->Some_0 <= self@.links.len(),
            source != ANY && target != ANY ==> match index {
                Some(index) => source != NULL && self@.at(index as int) == Some(
                    Doublet { source, target },
                ),
                None => source == NULL || !self@.links.contains(Doublet { source, target }),
            },
    {
        let index: Option<usize> = search(&self.links, source, target);
        proof {
            let pairs = held(self.links);
            let doublet = Doublet { source, target };
            if self@.links.contains(doublet) {
                let i = self@.links.index_of(doublet);
                assert(pairs[i] == (source, target));
                assert(pairs.contains((source, target)));
            }
        }
        index
    }

    /// Interns a named point, returning the same address for the same name.
    pub fn symbol(&mut self, name: &str) -> (index: Result<LinkIndex, Error>)
        requires
            old(self).wf(),
            old(self)@.links.len() < CAPACITY || old(self)@.symbols.contains_key(name@),
        ensures
            final(self).wf(),
            index matches Ok(index) && (final(self)@, index) == old(self)@.with_symbol(name@),
    {
        if let Some(existing) = self.symbols.get(name) {
            return Ok(*existing);
        }
        match self.create_point() {
            Ok(index) => {
                let ghost middle = self@;
                self.symbols.insert(name.to_string(), index);
                self.names.insert(index, name.to_string());
                proof {
                    assert(self@.names =~= middle.names.insert(index, name@));
                    assert(self@ =~= old(self)@.with_symbol(name@).0);
                    assert(!middle.names.contains_key(index)) by {
                        assert(old(self)@.names == middle.names);
                    }
                }
                Ok(index)
            },
            Err(error) => Err(error),
        }
    }

    /// The name of a symbol, if the link is one.
    pub fn name(&self, index: LinkIndex) -> (name: Option<&str>)
        ensures
            match name {
                Some(text) => self@.names.contains_key(index) && text@ == self@.names[index],
                None => !self@.names.contains_key(index),
            },
    {
        match self.names.get(&index) {
            Some(text) => Some(text.as_str()),
            None => None,
        }
    }

    /// The doublet stored at an address.
    pub fn get(&self, index: LinkIndex) -> (doublet: Option<Doublet>)
        ensures
            doublet == self@.at(index as int),
    {
        if index == NULL {
            return None;
        }
        match link_at(&self.links, index) {
            Some(link) => Some(Doublet::new(link.0, link.1)),
            None => None,
        }
    }

    /// Every link in the network as `(address, doublet)` pairs, in address
    /// order.
    pub fn links(&self) -> (links: Vec<(LinkIndex, Doublet)>)
        ensures
            links@ == Seq::new(self@.links.len(), |i: int| ((i + 1) as usize, self@.links[i])),
    {
        let pairs = listing(&self.links);
        let mut links: Vec<(LinkIndex, Doublet)> = Vec::new();
        let mut position: usize = 0;
        while position < pairs.len()
            invariant
                position <= pairs@.len(),
                pairs@ == Seq::new(
                    held(self.links).len(),
                    |i: int| ((i + 1) as usize, held(self.links)[i]),
                ),
                links@ == Seq::new(
                    position as nat,
                    |i: int| ((i + 1) as usize, self@.links[i]),
                ),
            decreases pairs@.len() - position,
        {
            let pair: (usize, (usize, usize)) = pairs[position];
            links.push((pair.0, Doublet::new(pair.1.0, pair.1.1)));
            position = position + 1;
            assert(links@ =~= Seq::new(
                position as nat,
                |i: int| ((i + 1) as usize, self@.links[i]),
            ));
        }
        links
    }

    /// Replays a [`LinkStore`] into the native network.
    ///
    /// The network must be empty, so that replaying in creation order gives
    /// every link the address it had.
    pub fn mirror(&mut self, store: &LinkStore) -> (mirrored: Result<(), Error>)
        requires
            old(self).wf(),
            store.wf(),
            store@.links.len() <= CAPACITY,
        ensures
            mirrors(old(self)@, store@, final(self)@, mirrored),
            old(self)@.links.len() > 0 ==> *final(self) == *old(self),
            mirrored is Ok ==> final(self).wf(),
    {
        if !self.is_empty() {
            let mut message = "cannot mirror into a store that already holds ".to_string();
            message.append(decimal_text(self.len() as u64).as_str());
            message.append(" links");
            return Err(Error::Storage(message));
        }
        let ghost target = store@;
        let pairs = store.iter();
        let mut position: usize = 0;
        proof {
            assert(self@.names =~= Map::empty()) by {
                assert forall|index: LinkIndex| !self@.names.contains_key(index) by {
                    if self@.names.contains_key(index) {
                        assert(self@.point(index as int));
                    }
                }
            }
            assert(self@.symbols =~= Map::empty()) by {
                assert forall|name: Seq<char>| !self@.symbols.contains_key(name) by {}
            }
            assert(self@ =~= first_links(target, 0));
        }
        while position < pairs.len()
            invariant
                old(self)@.links.len() == 0,
                store.wf(),
                target == store@,
                target.links.len() <= CAPACITY,
                position <= pairs@.len(),
                pairs@ == Seq::new(target.links.len(), |i: int| ((i + 1) as usize, target.links[i])),
                self.wf(),
                self@ == first_links(target, position as int),
            decreases pairs@.len() - position,
        {
            let (index, doublet) = pairs[position];
            let ghost before = self@;
            assert(target.links[position as int] == doublet);
            assert(before.links == target.links.take(position as int));
            let written: LinkIndex = if doublet.is_point(index) {
                self.create_point()?
            } else {
                self.create(doublet.source, doublet.target)?
            };
            proof {
                if searchable(target.links) && written != index {
                    assert(before.links.contains(doublet));
                    let earlier = before.links.index_of(doublet);
                    assert(target.links[earlier] == target.links[position as int]);
                }
            }
            keeps(index, "mirrored", written)?;
            let ghost middle = self@;
            assert(middle.links =~= target.links.take(position + 1));
            if let Some(name) = store.name(index) {
                self.names.insert(index, name.to_string());
                self.symbols.insert(name.to_string(), index);
                assert(self@.names =~= middle.names.insert(index, name@));
                assert(self@.symbols =~= middle.symbols.insert(name@, index));
            }
            proof {
                lemma_first_links(target, position as int);
            }
            position = position + 1;
            assert(self@ =~= first_links(target, position as int));
        }
        proof {
            assert(target.links.take(position as int) =~= target.links);
            lemma_all_links(target);
        }
        Ok(())
    }

    /// Replays the native network back into a [`LinkStore`].
    pub fn snapshot(&self) -> (restored: Result<LinkStore, Error>)
        requires
            self.wf(),
        ensures
            restores(self@, restored),
    {
        let links = self.links();
        proof {
            lemma_replayed(self@, self@.links.len() as int);
            lemma_all_links(self@);
            assert(links@ =~= listed(self@.links));
            assert(links@.take(links@.len() as int) =~= links@);
            assert(self@.links.take(self@.links.len() as int) =~= self@.links);
            assert(named(self.names@) =~= self@.names);
        }
        replay(&links, &self.names)
    }
}

/// The links of a network with their addresses.
pub open spec fn listed(links: Seq<Doublet>) -> Seq<(LinkIndex, Doublet)> {
    Seq::new(links.len(), |i: int| ((i + 1) as usize, links[i]))
}

/// The names of symbols as texts.
pub open spec fn named(names: Map<LinkIndex, String>) -> Map<LinkIndex, Seq<char>> {
    Map::new(|index: LinkIndex| names.contains_key(index), |index: LinkIndex| names[index]@)
}

/// A network with one more link replayed into it, and the address that it got.
pub open spec fn next_replayed(
    network: Network,
    index: LinkIndex,
    doublet: Doublet,
    names: Map<LinkIndex, Seq<char>>,
) -> (Network, LinkIndex) {
    if doublet.points_at(index as int) {
        if names.contains_key(index) {
            network.with_symbol(names[index])
        } else {
            network.with_point()
        }
    } else {
        network.with_link(doublet.source, doublet.target)
    }
}

/// The network that comes of replaying links in order, as long as each gets the
/// address it had; the first that does not is the fault.
pub open spec fn replayed(
    links: Seq<(LinkIndex, Doublet)>,
    names: Map<LinkIndex, Seq<char>>,
) -> Result<Network, Fault>
    decreases links.len(),
{
    if links.len() == 0 {
        Ok(Network::empty())
    } else {
        match replayed(links.drop_last(), names) {
            Err(fault) => Err(fault),
            Ok(network) => {
                let (index, doublet) = links.last();
                let (after, written) = next_replayed(network, index, doublet, names);
                if written == index {
                    Ok(after)
                } else {
                    Err(
                        Fault::Storage(shifted(index as nat, "restored"@, written as nat)),
                    )
                }
            },
        }
    }
}

/// Replays links that were read from a store, whatever it held.
pub fn replay(
    links: &Vec<(LinkIndex, Doublet)>,
    names: &HashMap<LinkIndex, String>,
) -> (restored: Result<LinkStore, Error>)
    ensures
        match replayed(links@, named(names@)) {
            Ok(network) => restored matches Ok(store) && store.wf() && store@ == network,
            Err(fault) => restored matches Err(error) && error@ == fault,
        },
{
    let mut store = LinkStore::new();
    let mut position: usize = 0;
    assert(links@.take(0) =~= Seq::<(LinkIndex, Doublet)>::empty());
    while position < links.len()
        invariant
            position <= links@.len(),
            store.wf(),
            store@.links.len() <= position,
            replayed(links@.take(position as int), named(names@)) == Ok::<Network, Fault>(store@),
        decreases links@.len() - position,
    {
        let (index, doublet) = links[position];
        let ghost before = store@;
        let ghost upto = links@.take(position + 1);
        assert(upto.drop_last() =~= links@.take(position as int));
        let written: LinkIndex = if doublet.is_point(index) {
            match names.get(&index) {
                Some(name) => store.symbol(name.as_str()),
                None => store.create_point(),
            }
        } else {
            store.create(doublet.source, doublet.target)
        };
        proof {
            assert((store@, written) == next_replayed(before, index, doublet, named(names@)));
            if written != index {
                lemma_replay_stops(links@, named(names@), position + 1);
            }
        }
        keeps(index, "restored", written)?;
        position = position + 1;
    }
    assert(links@.take(position as int) =~= links@);
    Ok(store)
}

/// What stops a replay stops it whatever follows.
proof fn lemma_replay_stops(
    links: Seq<(LinkIndex, Doublet)>,
    names: Map<LinkIndex, Seq<char>>,
    count: int,
)
    requires
        0 <= count <= links.len(),
        replayed(links.take(count), names) is Err,
    ensures
        replayed(links, names) == replayed(links.take(count), names),
    decreases links.len() - count,
{
    if count < links.len() {
        assert(links.take(count + 1).drop_last() =~= links.take(count));
        lemma_replay_stops(links, names, count + 1);
    } else {
        assert(links.take(count) =~= links);
    }
}

/// Replaying the first links of a sound network gives them back, unless one of
/// them repeats a doublet that is no point.
proof fn lemma_replayed(network: Network, count: int)
    requires
        network.sound(),
        0 <= count <= network.links.len(),
    ensures
        match first_repeat(network.links.take(count)) {
            None => replayed(listed(network.links).take(count), network.names) == Ok::<
                Network,
                Fault,
            >(first_links(network, count)),
            Some((index, earlier)) => replayed(
                listed(network.links).take(count),
                network.names,
            ) == Err::<Network, Fault>(
                Fault::Storage(shifted(index, "restored"@, earlier as nat)),
            ),
        },
    decreases count,
{
    let links = listed(network.links).take(count);
    let doublets = network.links.take(count);
    if count == 0 {
        let none = first_links(network, 0);
        assert forall|index: LinkIndex| !none.names.contains_key(index) by {
            if network.names.contains_key(index) {
                assert(network.point(index as int));
            }
        }
        assert forall|name: Seq<char>| !none.symbols.contains_key(name) by {
            if network.symbols.contains_key(name) {
                assert(network.point(network.symbols[name] as int));
            }
        }
        assert(none =~= Network::empty());
    } else {
        let before = first_links(network, count - 1);
        let index = count as usize;
        let doublet = network.links[count - 1];
        lemma_replayed(network, count - 1);
        assert(links.drop_last() =~= listed(network.links).take(count - 1));
        assert(links.last() == (index, doublet));
        assert(doublets.drop_last() =~= network.links.take(count - 1));
        assert(doublets.last() == doublet);
        lemma_first_links(network, count - 1);
        if first_repeat(doublets.drop_last()) is None {
            lemma_found_is_there(before.links, doublet);
            let (after, written) = next_replayed(before, index, doublet, network.names);
            if doublet.points_at(index as int) && network.names.contains_key(index) {
                assert(network.symbols[network.names[index]] == index);
                assert(!before.symbols.contains_key(network.names[index]));
            }
            if written == index {
                assert(after =~= first_links(network, count));
            }
        }
    }
}

/// Whether an outcome is what replaying a network gives: the network itself,
/// unless it repeats a doublet that is no point.
pub open spec fn restores(network: Network, restored: Result<LinkStore, Error>) -> bool {
    match first_repeat(network.links) {
        None => restored matches Ok(store) && store.wf() && store@ == network,
        Some((index, earlier)) => restored matches Err(error) && error@ == Fault::Storage(
            shifted(index, "restored"@, earlier as nat),
        ),
    }
}

/// Whether an outcome is what mirroring a network gives: an empty store comes to
/// hold it, unless it cannot be searched and a link would lose its address.
pub open spec fn mirrors(
    before: Network,
    network: Network,
    after: Network,
    mirrored: Result<(), Error>,
) -> bool {
    if before.links.len() > 0 {
        mirrored matches Err(error) && error@ == Fault::Storage(occupied(before.links.len()))
    } else {
        match mirrored {
            Ok(()) => after == network,
            Err(error) => {
                &&& !searchable(network.links)
                &&& exists|index: nat, written: nat|
                    error@ == Fault::Storage(#[trigger] shifted(index, "mirrored"@, written))
            },
        }
    }
}

/// What is said of a network that is not empty.
pub open spec fn occupied(count: nat) -> Seq<char> {
    "cannot mirror into a store that already holds "@ + decimal(count) + " links"@
}

/// Whether every doublet of a network can be searched for.
pub open spec fn searchable(links: Seq<Doublet>) -> bool {
    forall|i: int|
        0 <= i < links.len() ==> (#[trigger] links[i]).source != ANY && links[i].target != ANY
}

/// The part of a network that stands at its first addresses.
pub open spec fn first_links(network: Network, count: int) -> Network {
    Network {
        links: network.links.take(count),
        names: Map::new(
            |index: LinkIndex| network.names.contains_key(index) && index <= count,
            |index: LinkIndex| network.names[index],
        ),
        symbols: Map::new(
            |name: Seq<char>| network.symbols.contains_key(name) && network.symbols[name] <= count,
            |name: Seq<char>| network.symbols[name],
        ),
    }
}

/// One more address adds its link, and its name if it has one.
proof fn lemma_first_links(network: Network, count: int)
    requires
        network.sound(),
        0 <= count < network.links.len(),
    ensures
        ({
            let before = first_links(network, count);
            let after = first_links(network, count + 1);
            let index = (count + 1) as usize;
            &&& after.links == before.links.push(network.links[count])
            &&& if network.names.contains_key(index) {
                &&& after.names == before.names.insert(index, network.names[index])
                &&& after.symbols == before.symbols.insert(network.names[index], index)
            } else {
                &&& after.names == before.names
                &&& after.symbols == before.symbols
            }
        }),
{
    let before = first_links(network, count);
    let after = first_links(network, count + 1);
    let index = (count + 1) as usize;
    assert(after.links =~= before.links.push(network.links[count]));
    if network.names.contains_key(index) {
        assert(after.names =~= before.names.insert(index, network.names[index]));
        assert(after.symbols =~= before.symbols.insert(network.names[index], index)) by {
            assert forall|name: Seq<char>|
                after.symbols.contains_key(name) <==> before.symbols.insert(
                    network.names[index],
                    index,
                ).contains_key(name) by {
                if network.symbols.contains_key(name) && network.symbols[name] == index {
                    assert(network.names[index] == name);
                }
            }
        }
    } else {
        assert(after.names =~= before.names);
        assert(after.symbols =~= before.symbols) by {
            assert forall|name: Seq<char>|
                after.symbols.contains_key(name) <==> before.symbols.contains_key(name) by {
                if network.symbols.contains_key(name) && network.symbols[name] == index {
                    assert(network.names.contains_key(index));
                }
            }
        }
    }
}

/// All addresses make the whole network.
proof fn lemma_all_links(network: Network)
    requires
        network.sound(),
    ensures
        first_links(network, network.links.len() as int) == network,
{
    let all = first_links(network, network.links.len() as int);
    assert(all.links =~= network.links);
    assert(all.names =~= network.names) by {
        assert forall|index: LinkIndex|
            all.names.contains_key(index) <==> network.names.contains_key(index) by {
            if network.names.contains_key(index) {
                assert(network.point(index as int));
            }
        }
    }
    assert(all.symbols =~= network.symbols) by {
        assert forall|name: Seq<char>|
            all.symbols.contains_key(name) <==> network.symbols.contains_key(name) by {
            if network.symbols.contains_key(name) {
                assert(network.point(network.symbols[name] as int));
            }
        }
    }
}

/// The first repeat stays the first, whatever follows.
proof fn lemma_first_repeat_kept(links: Seq<Doublet>, count: int)
    requires
        0 <= count <= links.len(),
        first_repeat(links.take(count)) is Some,
    ensures
        first_repeat(links) == first_repeat(links.take(count)),
    decreases links.len() - count,
{
    if count < links.len() {
        assert(links.take(count + 1).drop_last() =~= links.take(count));
        lemma_first_repeat_kept(links, count + 1);
    } else {
        assert(links.take(count) =~= links);
    }
}

/// Mirroring and taking a snapshot are inverse to each other: a network that a
/// [`LinkStore`] holds repeats no doublet, so an empty native store mirrors it and
/// gives it back, every link at its address and every symbol under its name, as
/// long as no link has the address that stands for any.
pub proof fn law_mirrored_networks_come_back(
    store: LinkStore,
    native: NativeStore,
    mirrored: Result<(), Error>,
    restored: Result<LinkStore, Error>,
)
    requires
        store.wf(),
        searchable(store@.links),
        mirrors(Network::empty(), store@, native@, mirrored),
        restores(native@, restored),
    ensures
        mirrored is Ok,
        native@ == store@,
        restored is Ok,
        restored->Ok_0@ == store@,
{
    lemma_no_repeat(native@.links);
}

/// Another link keeps a network sound.
proof fn lemma_still_sound(before: Network, after: Network)
    requires
        before.sound(),
        after.links.len() <= usize::MAX,
        after.links.len() == before.links.len() + 1,
        forall|i: int| 0 <= i < before.links.len() ==> after.links[i] == before.links[i],
        after.names == before.names,
        after.symbols == before.symbols,
    ensures
        after.sound(),
{
    assert forall|index: LinkIndex| #[trigger] after.names.contains_key(index) implies {
        &&& after.symbols.contains_key(after.names[index])
        &&& after.symbols[after.names[index]] == index
        &&& after.point(index as int)
    } by {
        assert(before.names.contains_key(index));
        assert(before.point(index as int));
    }
}

/// Links come back at their own addresses if and only if none of them repeats an
/// earlier one, but for points, which are new each time. Where one does, the first
/// such link is told, with the address of its twin.
pub proof fn law_repeats_are_told(links: Seq<Doublet>)
    requires
        links.len() <= usize::MAX,
    ensures
        match first_repeat(links) {
            None => forall|i: int, j: int|
                0 <= i < j < links.len() && (#[trigger] links[i]) == (#[trigger] links[j])
                    ==> links[j].source == j + 1 && links[j].target == j + 1,
            Some((place, twin)) => {
                &&& 1 <= twin < place <= links.len()
                &&& links[twin - 1] == links[place - 1]
                &&& !(links[place - 1].source == place && links[place - 1].target == place)
                &&& forall|i: int, j: int|
                    0 <= i < j < place - 1 && (#[trigger] links[i]) == (#[trigger] links[j])
                        ==> links[j].source == j + 1 && links[j].target == j + 1
            },
        },
    decreases links.len(),
{
    if links.len() > 0 {
        let front = links.drop_last();
        law_repeats_are_told(front);
        lemma_found_is_there(front, links.last());
        assert forall|i: int| 0 <= i < front.len() implies #[trigger] links[i] == front[i] by {}
        match first_repeat(front) {
            Some((place, twin)) => {
                assert forall|i: int, j: int|
                    0 <= i < j < place - 1 && (#[trigger] links[i]) == (
                    #[trigger] links[j]) implies links[j].source == j + 1 && links[j].target == j
                    + 1 by {
                    assert(front[i] == front[j]);
                }
            },
            None => {
                assert forall|i: int, j: int|
                    0 <= i < j < links.len() - 1 && (#[trigger] links[i]) == (
                    #[trigger] links[j]) implies links[j].source == j + 1 && links[j].target == j
                    + 1 by {
                    assert(front[i] == front[j]);
                }
                if first_repeat(links) is None {
                    assert forall|i: int, j: int|
                        0 <= i < j < links.len() && (#[trigger] links[i]) == (
                        #[trigger] links[j]) implies links[j].source == j + 1 && links[j].target
                        == j + 1 by {
                        if j == links.len() - 1 {
                            assert(front[i] == links[j]);
                        } else {
                            assert(front[i] == front[j]);
                        }
                    }
                }
            },
        }
    }
}

} // verus!
