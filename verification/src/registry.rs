//! The entity registry: the authoritative store of simulation entities and
//! their replicable components.

use vstd::prelude::*;

verus! {

/// The payload component: an arbitrary server-computed value attached to an
/// entity that makes the entity replicable.
#[derive(Clone, Copy, Debug, PartialEq, Eq, Structural)]
pub struct ComponentA(pub usize);

/// The carrier component: the identity of the client that owns or triggered
/// the creation of the entity it is attached to.
#[derive(Clone, Copy, Debug, PartialEq, Eq, Structural)]
pub struct CarrierId(pub u64);

/// Whether an entity's visibility is gated by room membership
/// (interest-managed) or unconditional (broadcast to every client).
#[derive(Clone, Copy, Debug, PartialEq, Eq, Structural)]
pub enum RelevanceMode {
    BroadcastAll,
    InterestManagement,
}

/// Which clients a replicated entity is addressed to.
#[derive(Debug)]
pub enum TargetScope {
    /// Every connected client.
    All,
    /// An explicit list of client identities.
    Explicit(Vec<u64>),
    /// Only the clients that share a room with the entity.
    RoomFiltered(u64),
}

/// The replication-target record of one entity: its addressing scope and its
/// relevance mode. Written by the interest resolver, read by the dispatcher.
#[derive(Debug)]
pub struct Replicate {
    pub scope: TargetScope,
    pub relevance: RelevanceMode,
}

/// One simulation entity: a stable identifier plus its replicable components.
/// A component that is `None` is absent from the entity.
pub struct EntityRecord {
    pub id: u64,
    pub payload: Option<ComponentA>,
    pub carrier: Option<CarrierId>,
    pub label: Option<Vec<u8>>,
    /// A freshly-initialized payload attached by the interest resolver as a
    /// child of the entity.
    pub child_payload: Option<ComponentA>,
    pub target: Option<Replicate>,
}

/// The authoritative entity store. Identifiers are handed out from a counter
/// that only grows, so an identifier is never reused for a new entity.
pub struct Registry {
    pub entities: Vec<EntityRecord>,
    pub next_id: u64,
}

impl Registry {
    /// Every stored entity has an identifier below the counter, and no two
    /// entities share an identifier.
    pub open spec fn wf(self) -> bool {
        &&& forall|i: int|
            0 <= i < self.entities@.len() ==> (#[trigger] self.entities@[i]).id
                < self.next_id
        &&& forall|i: int, j: int|
            0 <= i < j < self.entities@.len() ==> (#[trigger] self.entities@[i]).id
                != (#[trigger] self.entities@[j]).id
    }

    pub fn new() -> (r: Registry)
        ensures
            r.wf(),
            r.entities@.len() == 0,
            r.next_id == 0,
    {
        Registry { entities: Vec::new(), next_id: 0 }
    }

    pub fn len(&self) -> (n: usize)
        ensures
            n == self.entities@.len(),
    {
        self.entities.len()
    }

    /// Spawn a new entity with the given components. The new entity carries
    /// no replication target and no child payload yet.
    pub fn spawn(
        &mut self,
        payload: Option<ComponentA>,
        carrier: Option<CarrierId>,
        label: Option<Vec<u8>>,
    ) -> (id: u64)
        requires
            old(self).wf(),
            old(self).next_id < u64::MAX,
        ensures
            final(self).wf(),
            id == old(self).next_id,
            final(self).next_id == old(self).next_id + 1,
            final(self).entities@ == old(self).entities@.push(
                (EntityRecord {
                    id,
                    payload,
                    carrier,
                    label,
                    child_payload: None,
                    target: None,
                }),
            ),
    {
        let id = self.next_id;
        self.next_id = self.next_id + 1;
        self.entities.push(
            EntityRecord { id, payload, carrier, label, child_payload: None, target: None },
        );
        id
    }

    /// Whether `extra` more entities can still be spawned without exhausting
    /// the identifier space. Callers test this before bulk insertion.
    pub fn has_capacity_for(&self, extra: usize) -> (r: bool)
        ensures
            r == (self.next_id + extra <= u64::MAX),
    {
        extra as u64 <= u64::MAX - self.next_id
    }
}

} // verus!
