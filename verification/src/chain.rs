//! The append-only, hash-identified event log.
//!
//! A `Chain` owns an ordered sequence of `MetaEvent` entries. Appending an
//! event first computes its identity hash from the event's contents as they
//! stand at that moment (its `parent` still absent), and only then assigns
//! the previous head's hash to `parent`; the hash is therefore a pure
//! function of the type tag and payload, never of chain position.

use vstd::prelude::*;
use crate::hashing::{event_hash, hash_event_contents};

verus! {

/// Mathematical model of an `Event`.
pub struct EventModel {
    pub type_: Seq<char>,
    pub parent: Option<u64>,
    pub data: Seq<u8>,
}

/// Mathematical model of a `MetaEvent`.
pub struct MetaEventModel {
    pub hash: u64,
    pub event: EventModel,
}

/// One immutable recorded unit of activity: a type tag, an optional
/// back-reference to the previous entry's hash, and an opaque payload.
#[derive(Debug, Clone)]
pub struct Event {
    type_: String,
    parent: Option<u64>,
    data: Vec<u8>,
}

impl View for Event {
    type V = EventModel;

    closed spec fn view(&self) -> EventModel {
        EventModel { type_: self.type_@, parent: self.parent, data: self.data@ }
    }
}

impl Event {
    /// A fresh event has no parent; the payload is taken as given.
    pub fn new(type_: String, data: Vec<u8>) -> (r: Event)
        ensures
            r@.type_ == type_@,
            r@.parent is None,
            r@.data == data@,
    {
        Event { type_, parent: None, data }
    }

    /// The event's type tag.
    pub fn type_(&self) -> (r: &String)
        ensures
            r@ == self@.type_,
    {
        &self.type_
    }

    /// The hash of the entry appended just before this one, if any.
    pub fn parent(&self) -> (r: Option<u64>)
        ensures
            r == self@.parent,
    {
        self.parent
    }

    /// The event's opaque payload.
    pub fn data(&self) -> (r: &Vec<u8>)
        ensures
            r@ == self@.data,
    {
        &self.data
    }

    /// Rebuilds an event with an already-resolved parent reference, for the
    /// wire decoder.
    pub(crate) fn assemble(type_: String, parent: Option<u64>, data: Vec<u8>) -> (r: Event)
        ensures
            r@ == (EventModel { type_: type_@, parent, data: data@ }),
    {
        Event { type_, parent, data }
    }

    /// The identity hash of this event's contents as they stand now.
    fn calculate_hash(&self) -> (r: u64)
        ensures
            r == event_hash(self@.type_, self@.data),
    {
        hash_event_contents(&self.type_, &self.data)
    }
}

/// An event paired with the identity hash computed for it at append time.
#[derive(Debug, Clone)]
pub struct MetaEvent {
    hash: u64,
    event: Event,
}

impl View for MetaEvent {
    type V = MetaEventModel;

    closed spec fn view(&self) -> MetaEventModel {
        MetaEventModel { hash: self.hash, event: self.event@ }
    }
}

impl MetaEvent {
    /// Rebuilds an entry from its recorded hash and event, for the wire
    /// decoder.
    pub(crate) fn assemble(hash: u64, event: Event) -> (r: MetaEvent)
        ensures
            r@ == (MetaEventModel { hash, event: event@ }),
    {
        MetaEvent { hash, event }
    }

    /// The identity hash recorded for this entry.
    pub fn hash(&self) -> (r: u64)
        ensures
            r == self@.hash,
    {
        self.hash
    }

    /// The recorded event itself.
    pub fn event(&self) -> (r: &Event)
        ensures
            r@ == self@.event,
    {
        &self.event
    }
}

/// The earliest entry carrying the given hash, in append order.
pub open spec fn first_with_hash(s: Seq<MetaEventModel>, h: u64) -> Option<MetaEventModel>
    decreases s.len(),
{
    if s.len() == 0 {
        None
    } else if s[0].hash == h {
        Some(s[0])
    } else {
        first_with_hash(s.drop_first(), h)
    }
}

/// The entry that `get_parent` resolves for the given hash: the entry for
/// the hash itself, then the entry for that event's parent reference, each
/// by earliest-match lookup; absence at either step yields absence.
pub open spec fn parent_lookup(s: Seq<MetaEventModel>, h: u64) -> Option<MetaEventModel> {
    match first_with_hash(s, h) {
        None => None,
        Some(m) => match m.event.parent {
            None => None,
            Some(p) => first_with_hash(s, p),
        },
    }
}

/// The hash of the most recently appended entry, or absence when empty.
pub open spec fn head_of(s: Seq<MetaEventModel>) -> Option<u64> {
    if s.len() == 0 {
        None
    } else {
        Some(s.last().hash)
    }
}

/// The model of the entry that appending `e` to a chain with contents `s`
/// stores: its hash from the event's contents alone, its parent from the
/// previous head.
pub open spec fn appended_entry(s: Seq<MetaEventModel>, e: EventModel) -> MetaEventModel {
    MetaEventModel {
        hash: event_hash(e.type_, e.data),
        event: EventModel { type_: e.type_, parent: head_of(s), data: e.data },
    }
}

/// Well-formedness of a chain built by appends alone: the first entry has no
/// parent, and every later entry's parent is the hash of the entry before it.
pub open spec fn chain_linked(s: Seq<MetaEventModel>) -> bool {
    forall|i: int|
        0 <= i < s.len() ==> s[i].event.parent == (if i == 0 {
            None::<u64>
        } else {
            Some(s[i - 1].hash)
        })
}

/// All recorded hashes are pairwise distinct.
pub open spec fn distinct_hashes(s: Seq<MetaEventModel>) -> bool {
    forall|j: int, k: int| 0 <= j < k < s.len() ==> s[j].hash != s[k].hash
}

/// Law: the head after an append is exactly the hash that the append
/// returned.
pub proof fn lemma_head_after_append(s: Seq<MetaEventModel>, e: EventModel)
    ensures
        head_of(s.push(appended_entry(s, e))) == Some(event_hash(e.type_, e.data)),
{
}

/// Law: when recorded hashes are pairwise distinct, looking up the hash of
/// any entry finds exactly that entry, so every hash an append returned
/// resolves to what was appended.
pub proof fn lemma_lookup_distinct(s: Seq<MetaEventModel>, i: int)
    requires
        0 <= i < s.len(),
        distinct_hashes(s),
    ensures
        first_with_hash(s, s[i].hash) == Some(s[i]),
    decreases i,
{
    if i == 0 {
    } else {
        assert(s[0].hash != s[i].hash);
        assert(s.drop_first()[i - 1] == s[i]);
        assert(distinct_hashes(s.drop_first())) by {
            assert(forall|j: int, k: int|
                0 <= j < k < s.drop_first().len() ==> s.drop_first()[j] == s[j + 1]
                    && s.drop_first()[k] == s[k + 1]);
        }
        lemma_lookup_distinct(s.drop_first(), i - 1);
    }
}

/// Law: in a well-linked chain with pairwise distinct hashes, resolving the
/// parent of the entry at position `i` yields the entry appended immediately
/// before it, and the first entry has no parent.
pub proof fn lemma_parent_traversal(s: Seq<MetaEventModel>, i: int)
    requires
        0 <= i < s.len(),
        chain_linked(s),
        distinct_hashes(s),
    ensures
        i == 0 ==> parent_lookup(s, s[i].hash) is None,
        i > 0 ==> parent_lookup(s, s[i].hash) == Some(s[i - 1]),
{
    lemma_lookup_distinct(s, i);
    if i > 0 {
        assert(s[i].event.parent == Some(s[i - 1].hash));
        lemma_lookup_distinct(s, i - 1);
    }
}

/// Law: an event's identity hash is computed from its type tag and payload
/// alone, so entries made from the same contents hash alike at any two chain
/// positions, whatever their true parents are.
pub proof fn lemma_hash_ignores_position(
    s1: Seq<MetaEventModel>,
    s2: Seq<MetaEventModel>,
    e: EventModel,
)
    ensures
        appended_entry(s1, e).hash == appended_entry(s2, e).hash,
{
}

/// An ordered, append-only collection of hash-identified events.
#[derive(Debug, Clone)]
pub struct Chain {
    events: Vec<MetaEvent>,
}

impl View for Chain {
    type V = Seq<MetaEventModel>;

    closed spec fn view(&self) -> Seq<MetaEventModel> {
        self.events@.map_values(|m: MetaEvent| m@)
    }
}

impl Chain {
    /// An empty chain; it is trivially well linked.
    pub fn new() -> (r: Chain)
        ensures
            r@ == Seq::<MetaEventModel>::empty(),
            chain_linked(r@),
    {
        let c = Chain { events: Vec::new() };
        proof {
            assert(c@ =~= Seq::<MetaEventModel>::empty());
        }
        c
    }

    /// Rebuilds a chain from decoded entries, for the wire decoder.
    pub(crate) fn from_entries(events: Vec<MetaEvent>) -> (r: Chain)
        ensures
            r@ == events@.map_values(|m: MetaEvent| m@),
    {
        Chain { events }
    }

    /// Appends an event: computes its identity hash from its contents as
    /// given (before any parent is assigned), sets its parent to the current
    /// head, stores the pair, and returns the hash. Appending is total and
    /// preserves well-linkedness.
    pub fn add(&mut self, event: Event) -> (r: u64)
        ensures
            r == event_hash(event@.type_, event@.data),
            final(self)@ == old(self)@.push(appended_entry(old(self)@, event@)),
            chain_linked(old(self)@) ==> chain_linked(final(self)@),
    {
        let ghost old_view = self@;
        let ghost e0 = event@;
        let mut event = event;
        let hash = event.calculate_hash();
        let parent_hash = self.head();
        event.parent = parent_hash;
        let node = MetaEvent { event, hash };
        self.events.push(node);
        proof {
            assert(node@ == appended_entry(old_view, e0));
            assert(self@ =~= old_view.push(node@));
            if chain_linked(old_view) {
                assert forall|i: int| 0 <= i < self@.len() implies self@[i].event.parent == (
                if i == 0 {
                    None::<u64>
                } else {
                    Some(self@[i - 1].hash)
                }) by {
                    if i < old_view.len() {
                        assert(self@[i] == old_view[i]);
                    }
                }
            }
        }
        hash
    }

    /// Linear search: the earliest entry whose recorded hash matches.
    pub fn get_event_by_hash(&self, hash: u64) -> (r: Option<&MetaEvent>)
        ensures
            match r {
                Some(m) => first_with_hash(self@, hash) == Some(m@),
                None => first_with_hash(self@, hash) is None,
            },
    {
        let mut i: usize = 0;
        proof {
            assert(self@.skip(0) =~= self@);
        }
        while i < self.events.len()
            invariant
                i <= self.events@.len(),
                self@ == self.events@.map_values(|m: MetaEvent| m@),
                self@.len() == self.events@.len(),
                first_with_hash(self@, hash) == first_with_hash(self@.skip(i as int), hash),
            decreases self.events@.len() - i,
        {
            if self.events[i].hash == hash {
                proof {
                    assert(self@.skip(i as int)[0] == self@[i as int]);
                }
                return Some(&self.events[i]);
            }
            proof {
                assert(self@.skip(i as int).drop_first() =~= self@.skip(i + 1));
            }
            i = i + 1;
        }
        proof {
            assert(self@.skip(self@.len() as int).len() == 0);
        }
        None
    }

    /// Resolves the entry for `hash`, then the entry for its event's parent
    /// reference; absence at either step short-circuits to absence.
    pub fn get_parent(&self, hash: u64) -> (r: Option<&MetaEvent>)
        ensures
            match r {
                Some(m) => parent_lookup(self@, hash) == Some(m@),
                None => parent_lookup(self@, hash) is None,
            },
    {
        match self.get_event_by_hash(hash) {
            None => None,
            Some(node) => match node.event.parent {
                None => None,
                Some(parent_hash) => self.get_event_by_hash(parent_hash),
            },
        }
    }

    /// The hash of the most recently appended entry, or absence when empty.
    pub fn head(&self) -> (r: Option<u64>)
        ensures
            r == head_of(self@),
    {
        let n = self.events.len();
        if n == 0 {
            None
        } else {
            Some(self.events[n - 1].hash)
        }
    }

    /// The number of entries appended so far.
    pub fn len(&self) -> (r: usize)
        ensures
            r == self@.len(),
    {
        self.events.len()
    }

    /// The entry at the given append position.
    pub fn entry_at(&self, i: usize) -> (r: &MetaEvent)
        requires
            i < self@.len(),
        ensures
            r@ == self@[i as int],
    {
        &self.events[i]
    }
}

} // verus!
