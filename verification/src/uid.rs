//! Stable identities: the table that pairs each live entity with the
//! identifier under which the network knows it.

use vstd::prelude::*;

verus! {

/// Network-stable identifier of an entity.
#[derive(Debug, Clone, Copy, Hash, PartialEq, Eq, Structural)]
pub struct Uid(pub u32);

/// Process-local handle of an entity: its slot in the entity store.
#[derive(Debug, Clone, Copy, Hash, PartialEq, Eq, Structural)]
pub struct EntityId(pub usize);

/// Why the allocator refused a request.
#[derive(Debug, Clone, Copy, PartialEq, Eq, Structural)]
pub enum IdentityError {
    /// No live entity is known under the identifier.
    NotFound,
    /// The identifier asked for already names a live entity.
    UidInUse,
    /// The entity already has an identifier.
    EntityInUse,
    /// Every identifier has been handed out.
    Exhausted,
}

/// One more than the largest identifier.
pub open spec fn uid_limit() -> nat {
    0x1_0000_0000
}

/// Whether some pair of `pairs` carries the identifier `uid`.
pub open spec fn has_uid(pairs: Seq<(Uid, EntityId)>, uid: Uid) -> bool {
    exists|i: int| 0 <= i < pairs.len() && (#[trigger] pairs[i]).0 == uid
}

/// Whether some pair of `pairs` carries the entity `entity`.
pub open spec fn has_entity(pairs: Seq<(Uid, EntityId)>, entity: EntityId) -> bool {
    exists|i: int| 0 <= i < pairs.len() && (#[trigger] pairs[i]).1 == entity
}

/// No identifier and no entity occurs in two pairs.
pub open spec fn pairwise_distinct(pairs: Seq<(Uid, EntityId)>) -> bool {
    forall|i: int, j: int|
        0 <= i < j < pairs.len() ==> (#[trigger] pairs[i]).0 != (#[trigger] pairs[j]).0
            && pairs[i].1 != pairs[j].1
}

/// The pairs read as a map from identifier to entity.
pub open spec fn pairs_to_map(pairs: Seq<(Uid, EntityId)>) -> Map<Uid, EntityId> {
    Map::new(
        |uid: Uid| has_uid(pairs, uid),
        |uid: Uid| pairs[choose|i: int| 0 <= i < pairs.len() && (#[trigger] pairs[i]).0 == uid].1,
    )
}

/// In a one-to-one table each pair is found under its identifier.
proof fn lemma_map_at(pairs: Seq<(Uid, EntityId)>, i: int)
    requires
        pairwise_distinct(pairs),
        0 <= i < pairs.len(),
    ensures
        pairs_to_map(pairs).contains_key(pairs[i].0),
        pairs_to_map(pairs)[pairs[i].0] == pairs[i].1,
{
    let uid = pairs[i].0;
    assert(has_uid(pairs, uid));
    let j = choose|j: int| 0 <= j < pairs.len() && (#[trigger] pairs[j]).0 == uid;
    assert(j == i) by {
        if j < i {
            assert(pairs[j].0 != pairs[i].0);
        } else if i < j {
            assert(pairs[i].0 != pairs[j].0);
        }
    }
}

/// A new pair at the end of the table is a new entry of the map.
proof fn lemma_map_push(pairs: Seq<(Uid, EntityId)>, uid: Uid, entity: EntityId)
    requires
        pairwise_distinct(pairs),
        !has_uid(pairs, uid),
        !has_entity(pairs, entity),
    ensures
        pairwise_distinct(pairs.push((uid, entity))),
        pairs_to_map(pairs.push((uid, entity))) == pairs_to_map(pairs).insert(uid, entity),
{
    let grown = pairs.push((uid, entity));
    assert forall|i: int, j: int| 0 <= i < j < grown.len() implies (#[trigger] grown[i]).0 != (
    #[trigger] grown[j]).0 && grown[i].1 != grown[j].1 by {
        if j < pairs.len() {
            assert(pairs[i].0 != pairs[j].0);
        } else {
            assert(grown[i] == pairs[i]);
        }
    }
    assert forall|u: Uid| #[trigger]
        pairs_to_map(grown).contains_key(u) == pairs_to_map(pairs).insert(
            uid,
            entity,
        ).contains_key(u) by {
        if has_uid(grown, u) {
            let i = choose|i: int| 0 <= i < grown.len() && (#[trigger] grown[i]).0 == u;
            if i < pairs.len() {
                assert(pairs[i].0 == u);
            }
        }
        if has_uid(pairs, u) {
            let i = choose|i: int| 0 <= i < pairs.len() && (#[trigger] pairs[i]).0 == u;
            assert(grown[i].0 == u);
        }
        if u == uid {
            assert(grown[pairs.len() as int].0 == u);
        }
    }
    assert forall|u: Uid| #[trigger] pairs_to_map(grown).contains_key(u) implies pairs_to_map(
        grown,
    )[u] == pairs_to_map(pairs).insert(uid, entity)[u] by {
        let i = choose|i: int| 0 <= i < grown.len() && (#[trigger] grown[i]).0 == u;
        lemma_map_at(grown, i);
        if i < pairs.len() {
            assert(pairs[i] == grown[i]);
            lemma_map_at(pairs, i);
        }
    }
    assert(pairs_to_map(grown) =~= pairs_to_map(pairs).insert(uid, entity));
}

/// A pair taken out of the table is an entry taken out of the map.
proof fn lemma_map_remove(pairs: Seq<(Uid, EntityId)>, at: int)
    requires
        pairwise_distinct(pairs),
        0 <= at < pairs.len(),
    ensures
        pairwise_distinct(pairs.remove(at)),
        pairs_to_map(pairs.remove(at)) == pairs_to_map(pairs).remove(pairs[at].0),
{
    let rest = pairs.remove(at);
    let uid = pairs[at].0;
    assert forall|i: int, j: int| 0 <= i < j < rest.len() implies (#[trigger] rest[i]).0 != (
    #[trigger] rest[j]).0 && rest[i].1 != rest[j].1 by {
        let a = if i < at { i } else { i + 1 };
        let b = if j < at { j } else { j + 1 };
        assert(rest[i] == pairs[a]);
        assert(rest[j] == pairs[b]);
        assert(pairs[a].0 != pairs[b].0);
    }
    assert forall|u: Uid| #[trigger]
        pairs_to_map(rest).contains_key(u) == pairs_to_map(pairs).remove(uid).contains_key(
            u,
        ) by {
        if has_uid(rest, u) {
            let i = choose|i: int| 0 <= i < rest.len() && (#[trigger] rest[i]).0 == u;
            let a = if i < at { i } else { i + 1 };
            assert(rest[i] == pairs[a]);
            assert(pairs[a].0 == u);
            if a < at {
                assert(pairs[a].0 != pairs[at].0);
            } else {
                assert(pairs[at].0 != pairs[a].0);
            }
        }
        if has_uid(pairs, u) && u != uid {
            let a = choose|a: int| 0 <= a < pairs.len() && (#[trigger] pairs[a]).0 == u;
            let i = if a < at { a } else { a - 1 };
            assert(rest[i] == pairs[a]);
            assert(rest[i].0 == u);
        }
    }
    assert forall|u: Uid| #[trigger] pairs_to_map(rest).contains_key(u) implies pairs_to_map(
        rest,
    )[u] == pairs_to_map(pairs).remove(uid)[u] by {
        let i = choose|i: int| 0 <= i < rest.len() && (#[trigger] rest[i]).0 == u;
        let a = if i < at { i } else { i + 1 };
        assert(rest[i] == pairs[a]);
        lemma_map_at(rest, i);
        lemma_map_at(pairs, a);
    }
    assert(pairs_to_map(rest) =~= pairs_to_map(pairs).remove(uid));
}

/// Whether some identifier names `entity`.
pub open spec fn is_named(ids: Map<Uid, EntityId>, entity: EntityId) -> bool {
    exists|uid: Uid| #[trigger] ids.contains_key(uid) && ids[uid] == entity
}

/// The identifier that names `entity`.
pub open spec fn name_of(ids: Map<Uid, EntityId>, entity: EntityId) -> Uid {
    choose|uid: Uid| #[trigger] ids.contains_key(uid) && ids[uid] == entity
}

/// The identity allocator: a one-to-one table between identifiers and live
/// entities, and the counter from which fresh identifiers are drawn.
pub struct UidAllocator {
    next: u64,
    pairs: Vec<(Uid, EntityId)>,
}

impl View for UidAllocator {
    type V = Map<Uid, EntityId>;

    /// The live mappings, from identifier to entity.
    closed spec fn view(&self) -> Map<Uid, EntityId> {
        pairs_to_map(self.pairs@)
    }
}

impl UidAllocator {
    /// The smallest number that was never handed out. It equals `uid_limit()`
    /// once the identifiers are used up.
    pub closed spec fn next_uid(&self) -> nat {
        self.next as nat
    }

    /// Whether some live identifier resolves to `entity`.
    pub open spec fn is_mapped(&self, entity: EntityId) -> bool {
        is_named(self@, entity)
    }

    /// The table is one-to-one, and every live identifier lies below the
    /// counter.
    pub closed spec fn wf(&self) -> bool {
        &&& self.next <= uid_limit()
        &&& pairwise_distinct(self.pairs@)
        &&& forall|i: int| 0 <= i < self.pairs@.len() ==> (#[trigger] self.pairs@[i]).0.0 < self.next
    }

    /// What `allocate` answers for a table with the mappings `live` and the
    /// counter `next`.
    pub open spec fn allocation(
        live: Map<Uid, EntityId>,
        next: nat,
        entity: EntityId,
        id: Option<Uid>,
    ) -> Result<Uid, IdentityError> {
        if is_named(live, entity) {
            Err(IdentityError::EntityInUse)
        } else {
            match id {
                Some(uid) => if live.contains_key(uid) {
                    Err(IdentityError::UidInUse)
                } else {
                    Ok(uid)
                },
                None => if next >= uid_limit() {
                    Err(IdentityError::Exhausted)
                } else {
                    Ok(Uid(next as u32))
                },
            }
        }
    }

    /// In a well-formed table two live identifiers never share an entity, and
    /// every live identifier lies below the counter.
    pub proof fn lemma_one_to_one(&self)
        requires
            self.wf(),
        ensures
            forall|a: Uid, b: Uid|
                #![trigger self@[a], self@[b]]
                self@.contains_key(a) && self@.contains_key(b) && a != b ==> self@[a] != self@[b],
            forall|a: Uid| #[trigger] self@.contains_key(a) ==> a.0 < self.next_uid(),
            self.next_uid() <= uid_limit(),
    {
        let pairs = self.pairs@;
        assert forall|a: Uid, b: Uid|
            #![trigger self@[a], self@[b]]
            self@.contains_key(a) && self@.contains_key(b) && a != b implies self@[a]
            != self@[b] by {
            let i = choose|i: int| 0 <= i < pairs.len() && (#[trigger] pairs[i]).0 == a;
            let j = choose|j: int| 0 <= j < pairs.len() && (#[trigger] pairs[j]).0 == b;
            lemma_map_at(pairs, i);
            lemma_map_at(pairs, j);
            if i < j {
                assert(pairs[i].1 != pairs[j].1);
            } else if j < i {
                assert(pairs[j].1 != pairs[i].1);
            }
        }
        assert forall|a: Uid| #[trigger] self@.contains_key(a) implies a.0 < self.next_uid() by {
            let i = choose|i: int| 0 <= i < pairs.len() && (#[trigger] pairs[i]).0 == a;
            assert(pairs[i].0.0 < self.next);
        }
    }

    /// Two allocations in a row never give the same identifier, nor serve
    /// the same entity, and the identifier of the first resolves to the
    /// entity of the first. `live` and `next` stand for the mappings and
    /// the counter of the table before the first.
    pub proof fn lemma_allocations_differ(
        live: Map<Uid, EntityId>,
        next: nat,
        first: EntityId,
        first_id: Option<Uid>,
        second: EntityId,
        second_id: Option<Uid>,
    )
        requires
            Self::allocation(live, next, first, first_id) is Ok,
        ensures
            ({
                let one = Self::allocation(live, next, first, first_id)->Ok_0;
                let counter = if one.0 < next {
                    next
                } else {
                    (one.0 + 1) as nat
                };
                &&& live.insert(one, first)[one] == first
                &&& Self::allocation(live.insert(one, first), counter, second, second_id) matches Ok(
                    two,
                ) ==> two != one && second != first
            }),
    {
        let one = Self::allocation(live, next, first, first_id)->Ok_0;
        let then = live.insert(one, first);
        assert(then.contains_key(one) && then[one] == first);
    }

    pub fn new() -> (r: UidAllocator)
        ensures
            r.wf(),
            r@ == Map::<Uid, EntityId>::empty(),
            r.next_uid() == 0,
    {
        let r = UidAllocator { next: 0, pairs: Vec::new() };
        assert(r@ =~= Map::<Uid, EntityId>::empty());
        r
    }

    /// How many mappings are live.
    pub fn len(&self) -> (r: usize)
        requires
            self.wf(),
        ensures
            r == self@.dom().len(),
            self@.dom().finite(),
    {
        proof {
            lemma_dom_len(self.pairs@);
        }
        self.pairs.len()
    }

    fn find_uid(&self, uid: Uid) -> (r: Option<usize>)
        ensures
            match r {
                Some(i) => i < self.pairs@.len() && self.pairs@[i as int].0 == uid,
                None => !has_uid(self.pairs@, uid),
            },
    {
        let mut i: usize = 0;
        while i < self.pairs.len()
            invariant
                i <= self.pairs@.len(),
                forall|k: int| 0 <= k < i ==> (#[trigger] self.pairs@[k]).0 != uid,
            decreases self.pairs@.len() - i,
        {
            if self.pairs[i].0.0 == uid.0 {
                return Some(i);
            }
            i += 1;
        }
        None
    }

    fn find_entity(&self, entity: EntityId) -> (r: Option<usize>)
        ensures
            match r {
                Some(i) => i < self.pairs@.len() && self.pairs@[i as int].1 == entity,
                None => !has_entity(self.pairs@, entity),
            },
    {
        let mut i: usize = 0;
        while i < self.pairs.len()
            invariant
                i <= self.pairs@.len(),
                forall|k: int| 0 <= k < i ==> (#[trigger] self.pairs@[k]).1 != entity,
            decreases self.pairs@.len() - i,
        {
            if self.pairs[i].1.0 == entity.0 {
                return Some(i);
            }
            i += 1;
        }
        None
    }

    /// Maps `entity` to an identifier: to `id` where one is given, else to
    /// the counter's value, which no entity ever had. The counter then moves
    /// past the identifier, so that it is never drawn afresh.
    pub fn allocate(&mut self, entity: EntityId, id: Option<Uid>) -> (r: Result<Uid, IdentityError>)
        requires
            old(self).wf(),
        ensures
            final(self).wf(),
            r == Self::allocation(old(self)@, old(self).next_uid(), entity, id),
            match r {
                Ok(uid) => {
                    &&& !old(self)@.contains_key(uid)
                    &&& !old(self).is_mapped(entity)
                    &&& final(self)@ == old(self)@.insert(uid, entity)
                    &&& final(self).next_uid() == if uid.0 < old(self).next_uid() {
                        old(self).next_uid()
                    } else {
                        (uid.0 + 1) as nat
                    }
                },
                Err(_) => final(self)@ == old(self)@ && final(self).next_uid() == old(self).next_uid(),
            },
    {
        proof {
            lemma_mapped_iff(self.pairs@, entity);
        }
        if self.find_entity(entity).is_some() {
            return Err(IdentityError::EntityInUse);
        }
        let uid = match id {
            Some(uid) => {
                if self.find_uid(uid).is_some() {
                    return Err(IdentityError::UidInUse);
                }
                uid
            },
            None => {
                if self.next > 0xFFFF_FFFF {
                    return Err(IdentityError::Exhausted);
                }
                proof {
                    if has_uid(self.pairs@, Uid(self.next as u32)) {
                        let i = choose|i: int|
                            0 <= i < self.pairs@.len() && (#[trigger] self.pairs@[i]).0 == Uid(
                                self.next as u32,
                            );
                        assert(self.pairs@[i].0.0 < self.next);
                    }
                }
                Uid(self.next as u32)
            },
        };
        proof {
            lemma_map_push(self.pairs@, uid, entity);
        }
        self.pairs.push((uid, entity));
        if uid.0 as u64 >= self.next {
            self.next = uid.0 as u64 + 1;
        }
        Ok(uid)
    }

    /// The entity that `uid` names.
    pub fn resolve(&self, uid: Uid) -> (r: Result<EntityId, IdentityError>)
        requires
            self.wf(),
        ensures
            r == if self@.contains_key(uid) {
                Ok::<EntityId, IdentityError>(self@[uid])
            } else {
                Err::<EntityId, IdentityError>(IdentityError::NotFound)
            },
    {
        match self.find_uid(uid) {
            Some(i) => {
                proof {
                    lemma_map_at(self.pairs@, i as int);
                }
                Ok(self.pairs[i].1)
            },
            None => Err(IdentityError::NotFound),
        }
    }

    /// The identifier under which `entity` is known.
    pub fn uid_of(&self, entity: EntityId) -> (r: Option<Uid>)
        requires
            self.wf(),
        ensures
            r.is_some() == self.is_mapped(entity),
            r.is_some() ==> self@.contains_key(r.unwrap()) && self@[r.unwrap()] == entity,
    {
        proof {
            lemma_mapped_iff(self.pairs@, entity);
        }
        match self.find_entity(entity) {
            Some(i) => {
                proof {
                    lemma_map_at(self.pairs@, i as int);
                    assert(self@.contains_key(self.pairs@[i as int].0) && self@[self.pairs@[i as int].0]
                        == entity);
                }
                Some(self.pairs[i].0)
            },
            None => None,
        }
    }

    /// Ends the mapping of `uid` and hands back the entity it named. The
    /// counter stays, so the identifier is not drawn afresh.
    pub fn release(&mut self, uid: Uid) -> (r: Result<EntityId, IdentityError>)
        requires
            old(self).wf(),
        ensures
            final(self).wf(),
            final(self)@ == old(self)@.remove(uid),
            final(self).next_uid() == old(self).next_uid(),
            r == if old(self)@.contains_key(uid) {
                Ok::<EntityId, IdentityError>(old(self)@[uid])
            } else {
                Err::<EntityId, IdentityError>(IdentityError::NotFound)
            },
    {
        match self.find_uid(uid) {
            Some(i) => {
                proof {
                    lemma_map_at(self.pairs@, i as int);
                    lemma_map_remove(self.pairs@, i as int);
                }
                let pair = self.pairs.remove(i);
                Ok(pair.1)
            },
            None => {
                assert(self@ =~= self@.remove(uid));
                Err(IdentityError::NotFound)
            },
        }
    }
}

/// An entity stands in the table exactly where an identifier names it.
proof fn lemma_mapped_iff(pairs: Seq<(Uid, EntityId)>, entity: EntityId)
    requires
        pairwise_distinct(pairs),
    ensures
        has_entity(pairs, entity) <==> exists|uid: Uid| #[trigger]
            pairs_to_map(pairs).contains_key(uid) && pairs_to_map(pairs)[uid] == entity,
{
    if has_entity(pairs, entity) {
        let i = choose|i: int| 0 <= i < pairs.len() && (#[trigger] pairs[i]).1 == entity;
        lemma_map_at(pairs, i);
        assert(pairs_to_map(pairs).contains_key(pairs[i].0) && pairs_to_map(pairs)[pairs[i].0]
            == entity);
    }
    if exists|uid: Uid| #[trigger]
        pairs_to_map(pairs).contains_key(uid) && pairs_to_map(pairs)[uid] == entity {
        let uid = choose|uid: Uid| #[trigger]
            pairs_to_map(pairs).contains_key(uid) && pairs_to_map(pairs)[uid] == entity;
        let i = choose|i: int| 0 <= i < pairs.len() && (#[trigger] pairs[i]).0 == uid;
        lemma_map_at(pairs, i);
        assert(pairs[i].1 == entity);
    }
}

/// A one-to-one table has as many identifiers as pairs.
proof fn lemma_dom_len(pairs: Seq<(Uid, EntityId)>)
    requires
        pairwise_distinct(pairs),
    ensures
        pairs_to_map(pairs).dom().finite(),
        pairs_to_map(pairs).dom().len() == pairs.len(),
    decreases pairs.len(),
{
    if pairs.len() == 0 {
        assert(pairs_to_map(pairs).dom() =~= Set::<Uid>::empty());
    } else {
        let at = pairs.len() - 1;
        let rest = pairs.remove(at);
        lemma_map_remove(pairs, at);
        lemma_dom_len(rest);
        lemma_map_at(pairs, at);
        assert(pairs_to_map(pairs).dom() =~= pairs_to_map(rest).dom().insert(pairs[at].0));
    }
}

} // verus!
