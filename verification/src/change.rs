//! The changes that the operations on a tree make, node by node, in the
//! order in which they happen.

use vstd::prelude::*;

verus! {

/// One change to one node. Nodes are named by their identifiers.
pub enum Event {
    /// The node `parent` has a new child at `added_idx`.
    NodeAdded { parent: String, added_idx: usize },
    /// The node `parent` has lost the child that stood at `removed_idx`.
    NodeRemoved { parent: String, removed_idx: usize },
    /// The attributes of `node` have changed.
    AttributesChanged { node: String },
    /// The text of the leaf `node` has changed.
    TextChanged { node: String },
}

/// What an event says, with identifiers as sequences of characters.
pub enum Change {
    NodeAdded { parent: Seq<char>, added_idx: usize },
    NodeRemoved { parent: Seq<char>, removed_idx: usize },
    AttributesChanged { node: Seq<char> },
    TextChanged { node: Seq<char> },
}

impl View for Event {
    type V = Change;

    open spec fn view(&self) -> Change {
        match *self {
            Event::NodeAdded { parent, added_idx } => Change::NodeAdded {
                parent: parent@,
                added_idx,
            },
            Event::NodeRemoved { parent, removed_idx } => Change::NodeRemoved {
                parent: parent@,
                removed_idx,
            },
            Event::AttributesChanged { node } => Change::AttributesChanged { node: node@ },
            Event::TextChanged { node } => Change::TextChanged { node: node@ },
        }
    }
}

/// The record of the changes that were made, oldest first.
pub struct Journal {
    events: Vec<Event>,
}

impl View for Journal {
    type V = Seq<Change>;

    closed spec fn view(&self) -> Seq<Change> {
        Seq::new(self.events@.len(), |i: int| self.events@[i]@)
    }
}

/// Whether the record `after` is the record `before` with more changes
/// behind it, or none.
pub open spec fn grown(before: Seq<Change>, after: Seq<Change>) -> bool {
    &&& before.len() <= after.len()
    &&& forall|i: int| 0 <= i < before.len() ==> #[trigger] after[i] == before[i]
}

impl Journal {
    /// An empty record.
    pub fn new() -> (journal: Self)
        ensures
            journal@ == Seq::<Change>::empty(),
    {
        let journal = Journal { events: Vec::new() };
        assert(journal@ =~= Seq::<Change>::empty());
        journal
    }

    /// How many changes the record holds.
    pub fn len(&self) -> (n: usize)
        ensures
            n == self@.len(),
    {
        self.events.len()
    }

    /// Hands out the changes recorded so far and empties the record.
    pub fn take(&mut self) -> (events: Vec<Event>)
        ensures
            final(self)@ == Seq::<Change>::empty(),
            events@.len() == old(self)@.len(),
            forall|i: int| 0 <= i < events@.len() ==> (#[trigger] events@[i])@ == old(self)@[i],
    {
        let mut events: Vec<Event> = Vec::new();
        std::mem::swap(&mut events, &mut self.events);
        assert(self@ =~= Seq::<Change>::empty());
        events
    }

    fn record(&mut self, event: Event)
        ensures
            final(self)@ == old(self)@.push(event@),
    {
        self.events.push(event);
        assert(self@ =~= old(self)@.push(event@));
    }

    /// Records that the node `parent` has a new child at `added_idx`.
    pub(crate) fn node_added(&mut self, parent: &String, added_idx: usize)
        ensures
            final(self)@ == old(self)@.push(Change::NodeAdded { parent: parent@, added_idx }),
    {
        self.record(Event::NodeAdded { parent: parent.clone(), added_idx });
    }

    /// Records that the node `parent` has lost its child at `removed_idx`.
    pub(crate) fn node_removed(&mut self, parent: &String, removed_idx: usize)
        ensures
            final(self)@ == old(self)@.push(
                Change::NodeRemoved { parent: parent@, removed_idx },
            ),
    {
        self.record(Event::NodeRemoved { parent: parent.clone(), removed_idx });
    }

    /// Records that the attributes of `node` have changed.
    pub(crate) fn attributes_changed(&mut self, node: &String)
        ensures
            final(self)@ == old(self)@.push(Change::AttributesChanged { node: node@ }),
    {
        self.record(Event::AttributesChanged { node: node.clone() });
    }

    /// Records that the text of the leaf `node` has changed.
    pub(crate) fn text_changed(&mut self, node: &String)
        ensures
            final(self)@ == old(self)@.push(Change::TextChanged { node: node@ }),
    {
        self.record(Event::TextChanged { node: node.clone() });
    }
}

/// The listeners that are told of changes. Each is known by the handle
/// that it got when it was added, which stays its own when others leave.
pub struct Listeners<F> {
    slots: Vec<Option<F>>,
}

impl<F: Fn(&Event)> Listeners<F> {
    /// The listeners by their handles; a handle whose listener has left
    /// holds nothing.
    pub closed spec fn slots(self) -> Seq<Option<F>> {
        self.slots@
    }

    /// Whether every listener can be told of every change.
    pub open spec fn wf(self) -> bool {
        forall|i: int, event: &Event|
            0 <= i < self.slots().len() && self.slots()[i] is Some ==> call_requires(
                #[trigger] self.slots()[i]->0,
                (event,),
            )
    }

    /// No listeners.
    pub fn new() -> (listeners: Self)
        ensures
            listeners.wf(),
            listeners.slots().len() == 0,
    {
        Listeners { slots: Vec::new() }
    }

    /// Adds `listener` and hands back the handle by which it can be removed.
    pub fn add_listener(&mut self, listener: F) -> (handle: usize)
        requires
            old(self).wf(),
            forall|event: &Event| call_requires(listener, (event,)),
        ensures
            final(self).wf(),
            handle == old(self).slots().len(),
            final(self).slots() == old(self).slots().push(Some(listener)),
    {
        let handle = self.slots.len();
        self.slots.push(Some(listener));
        handle
    }

    /// Removes the listener with the handle `listener_id` and hands it
    /// back, if there is one.
    pub fn remove_listener(&mut self, listener_id: usize) -> (listener: Option<F>)
        requires
            old(self).wf(),
        ensures
            final(self).wf(),
            listener == if listener_id < old(self).slots().len() {
                old(self).slots()[listener_id as int]
            } else {
                None
            },
            final(self).slots() == if listener_id < old(self).slots().len() {
                old(self).slots().update(listener_id as int, None)
            } else {
                old(self).slots()
            },
    {
        if listener_id < self.slots.len() {
            let mut slot: Option<F> = None;
            std::mem::swap(&mut slot, &mut self.slots[listener_id]);
            slot
        } else {
            None
        }
    }

    /// Tells every listener of `event`, in the order of their handles.
    pub fn notify(&self, event: &Event)
        requires
            self.wf(),
        ensures
            forall|i: int|
                0 <= i < self.slots().len() && self.slots()[i] is Some ==> call_ensures(
                    #[trigger] self.slots()[i]->0,
                    (event,),
                    (),
                ),
            told(*self, event@),
    {
        let mut i: usize = 0;
        while i < self.slots.len()
            invariant
                i <= self.slots@.len(),
                self.wf(),
                forall|j: int|
                    0 <= j < i && self.slots()[j] is Some ==> call_ensures(
                        #[trigger] self.slots()[j]->0,
                        (event,),
                        (),
                    ),
            decreases self.slots@.len() - i,
        {
            match &self.slots[i] {
                Some(listener) => {
                    listener(event);
                },
                None => {},
            }
            i = i + 1;
        }
        proof {
            assert forall|i: int|
                0 <= i < self.slots().len() && (#[trigger] self.slots()[i]) is Some implies exists|
                told: Event,
            |
                told@ == event@ && #[trigger] call_ensures(self.slots()[i]->0, (&told,), ()) by {
                assert(call_ensures(self.slots()[i]->0, (event,), ()));
            }
        }
    }
}

/// Whether every listener has been called with an event that says
/// `change`.
pub open spec fn told<F: Fn(&Event)>(listeners: Listeners<F>, change: Change) -> bool {
    forall|i: int|
        0 <= i < listeners.slots().len() && (#[trigger] listeners.slots()[i]) is Some
            ==> exists|event: Event|
            event@ == change && #[trigger] call_ensures(listeners.slots()[i]->0, (&event,), ())
}

} // verus!
