//! The change tracker: the log of what was inserted, modified and removed
//! since the last synchronisation pass.

use vstd::prelude::*;
use crate::codec::{Component, ComponentKind};
use crate::queue::{lemma_filter_keeps_pairwise, lemma_filtered_came_from};
use crate::uid::Uid;
use crate::world::Entity;

verus! {

/// One change of the synchronised state. An event holds its components as
/// values; the codec turns each into a tagged record of bytes.
#[derive(Debug, Clone, Copy, PartialEq, Eq)]
pub enum Event {
    /// An entity came to be, with these components.
    Inserted(Uid, Entity),
    /// A component of an entity took a new value.
    Modified(Uid, Component),
    /// An entity ceased to be.
    Removed(Uid),
}

impl Event {
    pub open spec fn spec_uid(&self) -> Uid {
        match self {
            Event::Inserted(uid, _) => *uid,
            Event::Modified(uid, _) => *uid,
            Event::Removed(uid) => *uid,
        }
    }

    /// The entity that the event is about.
    #[verifier::when_used_as_spec(spec_uid)]
    pub fn uid(&self) -> (r: Uid)
        ensures
            r == self.spec_uid(),
    {
        match self {
            Event::Inserted(uid, _) => *uid,
            Event::Modified(uid, _) => *uid,
            Event::Removed(uid) => *uid,
        }
    }

    /// Whether the event is the modification of the component of type
    /// `kind` of the entity `uid`.
    pub open spec fn modifies(&self, uid: Uid, kind: ComponentKind) -> bool {
        match self {
            Event::Modified(u, component) => *u == uid && component.kind() == kind,
            _ => false,
        }
    }
}

/// The events that are not about `uid`.
pub open spec fn spares(uid: Uid) -> spec_fn(Event) -> bool {
    |event: Event| event.uid() != uid
}

/// Two events that do not modify the same component of the same entity.
pub open spec fn apart() -> spec_fn(Event, Event) -> bool {
    |a: Event, b: Event|
        match a {
            Event::Modified(uid, component) => !b.modifies(uid, component.kind()),
            _ => true,
        }
}

/// Whether `events` hold a modification of the component `kind` of `uid`.
pub open spec fn has_pending(events: Seq<Event>, uid: Uid, kind: ComponentKind) -> bool {
    exists|i: int| 0 <= i < events.len() && (#[trigger] events[i]).modifies(uid, kind)
}

/// The place of the modification of the component `kind` of `uid`.
pub open spec fn pending_at(events: Seq<Event>, uid: Uid, kind: ComponentKind) -> int {
    choose|i: int| 0 <= i < events.len() && (#[trigger] events[i]).modifies(uid, kind)
}

/// The log after a modification: it takes the place of the pending
/// modification of the same component, or goes to the end where there is
/// none.
pub open spec fn upsert(events: Seq<Event>, uid: Uid, component: Component) -> Seq<Event> {
    if has_pending(events, uid, component.kind()) {
        events.update(pending_at(events, uid, component.kind()), Event::Modified(uid, component))
    } else {
        events.push(Event::Modified(uid, component))
    }
}

/// A change of a component that is under way: the value as it was and as
/// it is to be.
#[derive(Debug, Clone, Copy, PartialEq, Eq)]
pub struct Mutation {
    uid: Uid,
    before: Component,
    value: Component,
}

impl Mutation {
    /// The entity whose component changes.
    pub closed spec fn uid(&self) -> Uid {
        self.uid
    }

    /// The value of the component when the change began.
    pub closed spec fn before(&self) -> Component {
        self.before
    }

    pub closed spec fn spec_value(&self) -> Component {
        self.value
    }

    /// The value of the component as it is to be.
    #[verifier::when_used_as_spec(spec_value)]
    pub fn value(&self) -> (r: Component)
        ensures
            r == self.spec_value(),
    {
        self.value
    }

    /// Changes the value of the component.
    pub fn set(&mut self, value: Component)
        ensures
            final(self).value() == value,
            final(self).uid() == old(self).uid(),
            final(self).before() == old(self).before(),
    {
        self.value = value;
    }
}

/// The dirty log of one peer.
pub struct ChangeTracker {
    inserted: Vec<Event>,
    modified: Vec<Event>,
    removed: Vec<Event>,
}

impl ChangeTracker {
    /// The pending insertions, oldest first.
    pub closed spec fn inserted(&self) -> Seq<Event> {
        self.inserted@
    }

    /// The pending modifications, in the order in which each component was
    /// first touched.
    pub closed spec fn modified(&self) -> Seq<Event> {
        self.modified@
    }

    /// The pending removals, oldest first.
    pub closed spec fn removed(&self) -> Seq<Event> {
        self.removed@
    }

    /// Each queue holds events of its own kind, and no component of an
    /// entity has two pending modifications.
    pub open spec fn wf(&self) -> bool {
        &&& forall|i: int|
            0 <= i < self.inserted().len() ==> (#[trigger] self.inserted()[i]) is Inserted
        &&& forall|i: int|
            0 <= i < self.modified().len() ==> (#[trigger] self.modified()[i]) is Modified
        &&& forall|i: int|
            0 <= i < self.removed().len() ==> (#[trigger] self.removed()[i]) is Removed
        &&& forall|i: int, j: int|
            0 <= i < j < self.modified().len() ==> #[trigger] apart()(
                self.modified()[i],
                self.modified()[j],
            )
    }

    pub fn new() -> (r: ChangeTracker)
        ensures
            r.wf(),
            r.inserted() == Seq::<Event>::empty(),
            r.modified() == Seq::<Event>::empty(),
            r.removed() == Seq::<Event>::empty(),
    {
        ChangeTracker { inserted: Vec::new(), modified: Vec::new(), removed: Vec::new() }
    }

    /// Notes that the entity `uid` came to be with the components of
    /// `entity`.
    pub fn track_inserted(&mut self, uid: Uid, entity: Entity)
        requires
            old(self).wf(),
        ensures
            final(self).wf(),
            final(self).inserted() == old(self).inserted().push(Event::Inserted(uid, entity)),
            final(self).modified() == old(self).modified(),
            final(self).removed() == old(self).removed(),
    {
        self.inserted.push(Event::Inserted(uid, entity));
    }

    fn find_pending(&self, uid: Uid, kind: ComponentKind) -> (r: Option<usize>)
        ensures
            match r {
                Some(i) => i < self.modified().len() && self.modified()[i as int].modifies(
                    uid,
                    kind,
                ),
                None => !has_pending(self.modified(), uid, kind),
            },
    {
        let mut i: usize = 0;
        while i < self.modified.len()
            invariant
                i <= self.modified@.len(),
                forall|k: int| 0 <= k < i ==> !(#[trigger] self.modified@[k]).modifies(uid, kind),
            decreases self.modified@.len() - i,
        {
            let found = match self.modified[i] {
                Event::Modified(u, component) => u == uid && component.kind() == kind,
                _ => false,
            };
            if found {
                return Some(i);
            }
            i += 1;
        }
        None
    }

    /// Notes that a component of the entity `uid` took the value
    /// `component`. Of several values of one component within a pass only
    /// the last is kept.
    pub fn track_modified(&mut self, uid: Uid, component: Component)
        requires
            old(self).wf(),
        ensures
            final(self).wf(),
            final(self).modified() == upsert(old(self).modified(), uid, component),
            final(self).inserted() == old(self).inserted(),
            final(self).removed() == old(self).removed(),
    {
        let ghost before = self.modified@;
        let kind = component.kind();
        match self.find_pending(uid, kind) {
            Some(i) => {
                proof {
                    let at = pending_at(before, uid, kind);
                    if at < i {
                        assert(apart()(before[at], before[i as int]));
                    } else if i < at {
                        assert(apart()(before[i as int], before[at]));
                    }
                    assert(at == i);
                }
                self.modified[i] = Event::Modified(uid, component);
                proof {
                    assert forall|a: int, b: int|
                        0 <= a < b < self.modified@.len() implies #[trigger] apart()(
                        self.modified@[a],
                        self.modified@[b],
                    ) by {
                        assert(apart()(before[a], before[b]));
                        if a == i {
                            assert(before[a].modifies(uid, kind));
                        }
                        if b == i {
                            assert(before[b].modifies(uid, kind));
                        }
                    }
                }
            },
            None => {
                self.modified.push(Event::Modified(uid, component));
                proof {
                    assert forall|a: int, b: int|
                        0 <= a < b < self.modified@.len() implies #[trigger] apart()(
                        self.modified@[a],
                        self.modified@[b],
                    ) by {
                        if b < before.len() {
                            assert(apart()(before[a], before[b]));
                        } else {
                            assert(!before[a].modifies(uid, kind));
                        }
                    }
                }
            },
        }
    }

    /// Notes the new value of a component, unless it is the old one.
    /// Answers whether anything was noted.
    pub fn track(&mut self, uid: Uid, before: Component, after: Component) -> (r: bool)
        requires
            old(self).wf(),
        ensures
            final(self).wf(),
            r == (before != after),
            final(self).inserted() == old(self).inserted(),
            final(self).removed() == old(self).removed(),
            final(self).modified() == if r {
                upsert(old(self).modified(), uid, after)
            } else {
                old(self).modified()
            },
    {
        if before == after {
            false
        } else {
            self.track_modified(uid, after);
            true
        }
    }

    /// Begins a tracked change of a component of the entity `uid`, which
    /// has the value `current`. The change is made on `value` and takes
    /// effect in the log with `commit`.
    pub fn begin(uid: Uid, current: Component) -> (r: Mutation)
        ensures
            r.uid() == uid,
            r.before() == current,
            r.value() == current,
    {
        Mutation { uid, before: current, value: current }
    }

    /// Ends a tracked change: the new value is noted, unless it is the old
    /// one or a value of another type. Answers whether anything was noted.
    pub fn commit(&mut self, mutation: Mutation) -> (r: bool)
        requires
            old(self).wf(),
        ensures
            final(self).wf(),
            r == (mutation.before() != mutation.value() && mutation.before().kind()
                == mutation.value().kind()),
            final(self).inserted() == old(self).inserted(),
            final(self).removed() == old(self).removed(),
            final(self).modified() == if r {
                upsert(old(self).modified(), mutation.uid(), mutation.value())
            } else {
                old(self).modified()
            },
    {
        if mutation.before.kind() == mutation.value.kind() {
            self.track(mutation.uid, mutation.before, mutation.value)
        } else {
            false
        }
    }

    /// Notes that the entity `uid` ceased to be. What was pending for the
    /// entity, inserted or modified, is withdrawn.
    pub fn track_removed(&mut self, uid: Uid)
        requires
            old(self).wf(),
        ensures
            final(self).wf(),
            final(self).inserted() == old(self).inserted().filter(spares(uid)),
            final(self).modified() == old(self).modified().filter(spares(uid)),
            forall|i: int|
                0 <= i < final(self).inserted().len() ==> (#[trigger] final(self).inserted()[i]).uid()
                    != uid,
            forall|i: int|
                0 <= i < final(self).modified().len() ==> (#[trigger] final(self).modified()[i]).uid()
                    != uid,
            final(self).removed() == if old(self).removed().contains(Event::Removed(uid)) {
                old(self).removed()
            } else {
                old(self).removed().push(Event::Removed(uid))
            },
    {
        proof {
            lemma_filter_keeps_pairwise(self.modified@, spares(uid), apart());
            assert forall|i: int| 0 <= i < self.modified@.filter(spares(uid)).len() implies (
            #[trigger] self.modified@.filter(spares(uid))[i]) is Modified by {
                lemma_filtered_came_from(self.modified@, spares(uid), i);
            }
            assert forall|i: int| 0 <= i < self.inserted@.filter(spares(uid)).len() implies (
            #[trigger] self.inserted@.filter(spares(uid))[i]) is Inserted
                && self.inserted@.filter(spares(uid))[i].uid() != uid by {
                lemma_filtered_came_from(self.inserted@, spares(uid), i);
            }
            assert forall|i: int| 0 <= i < self.modified@.filter(spares(uid)).len() implies (
            #[trigger] self.modified@.filter(spares(uid))[i]).uid() != uid by {
                lemma_filtered_came_from(self.modified@, spares(uid), i);
            }
        }
        withdraw(&mut self.inserted, uid);
        withdraw(&mut self.modified, uid);
        let mut known = false;
        let mut i: usize = 0;
        while i < self.removed.len()
            invariant
                i <= self.removed@.len(),
                self.removed@ == old(self).removed@,
                known == exists|k: int|
                    0 <= k < i && #[trigger] self.removed@[k] == Event::Removed(uid),
                old(self).wf(),
            decreases self.removed@.len() - i,
        {
            let hit = match self.removed[i] {
                Event::Removed(u) => u == uid,
                _ => false,
            };
            proof {
                assert(self.removed@[i as int] is Removed);
                assert(hit == (self.removed@[i as int] == Event::Removed(uid)));
            }
            known = known || hit;
            i += 1;
        }
        if !known {
            self.removed.push(Event::Removed(uid));
        }
    }

    /// Hands out the pending insertions and clears them.
    pub fn drain_inserted(&mut self) -> (r: Vec<Event>)
        requires
            old(self).wf(),
        ensures
            final(self).wf(),
            r@ == old(self).inserted(),
            final(self).inserted() == Seq::<Event>::empty(),
            final(self).modified() == old(self).modified(),
            final(self).removed() == old(self).removed(),
    {
        let mut drained: Vec<Event> = Vec::new();
        std::mem::swap(&mut drained, &mut self.inserted);
        drained
    }

    /// Hands out the pending modifications and clears them.
    pub fn drain_modified(&mut self) -> (r: Vec<Event>)
        requires
            old(self).wf(),
        ensures
            final(self).wf(),
            r@ == old(self).modified(),
            final(self).modified() == Seq::<Event>::empty(),
            final(self).inserted() == old(self).inserted(),
            final(self).removed() == old(self).removed(),
    {
        let mut drained: Vec<Event> = Vec::new();
        std::mem::swap(&mut drained, &mut self.modified);
        drained
    }

    /// Hands out the pending removals and clears them.
    pub fn drain_removed(&mut self) -> (r: Vec<Event>)
        requires
            old(self).wf(),
        ensures
            final(self).wf(),
            r@ == old(self).removed(),
            final(self).removed() == Seq::<Event>::empty(),
            final(self).inserted() == old(self).inserted(),
            final(self).modified() == old(self).modified(),
    {
        let mut drained: Vec<Event> = Vec::new();
        std::mem::swap(&mut drained, &mut self.removed);
        drained
    }
}

/// Takes the events about `uid` out of `queue`; the others keep their order.
fn withdraw(queue: &mut Vec<Event>, uid: Uid)
    ensures
        final(queue)@ == old(queue)@.filter(spares(uid)),
{
    let mut kept: Vec<Event> = Vec::new();
    let mut i: usize = 0;
    proof {
        reveal(Seq::filter);
        assert(queue@.take(0).filter(spares(uid)) =~= Seq::<Event>::empty());
    }
    while i < queue.len()
        invariant
            i <= queue@.len(),
            queue@ == old(queue)@,
            kept@ == queue@.take(i as int).filter(spares(uid)),
        decreases queue@.len() - i,
    {
        let event = queue[i];
        proof {
            assert(queue@.take(i as int + 1) =~= queue@.take(i as int).push(event));
            queue@.take(i as int).lemma_filter_push(event, spares(uid));
        }
        if event.uid() != uid {
            kept.push(event);
        }
        i += 1;
    }
    assert(queue@.take(queue@.len() as int) =~= queue@);
    *queue = kept;
}

/// Noting the same value twice is noting it once.
pub proof fn lemma_upsert_idempotent(events: Seq<Event>, uid: Uid, component: Component)
    requires
        forall|i: int, j: int| 0 <= i < j < events.len() ==> #[trigger] apart()(events[i], events[j]),
    ensures
        upsert(upsert(events, uid, component), uid, component) == upsert(events, uid, component),
{
    let once = upsert(events, uid, component);
    let kind = component.kind();
    let event = Event::Modified(uid, component);
    let at = if has_pending(events, uid, kind) {
        pending_at(events, uid, kind)
    } else {
        events.len() as int
    };
    assert(once[at].modifies(uid, kind));
    let again = pending_at(once, uid, kind);
    if again != at {
        assert(events[again].modifies(uid, kind));
        if has_pending(events, uid, kind) {
            if again < at {
                assert(apart()(events[again], events[at]));
            } else {
                assert(apart()(events[at], events[again]));
            }
        }
    }
    assert(once.update(again, event) =~= once);
}

} // verus!
