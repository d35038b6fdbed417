//! The interest resolver: on a client-connect event it scans every entity
//! currently carrying the payload component, groups the connecting client and
//! those entities into a room derived from the client's identity, marks each
//! such entity for interest-managed replication, and attaches a
//! freshly-initialized child payload to it.

use crate::registry::{ComponentA, EntityRecord, Registry, RelevanceMode, Replicate, TargetScope};
use crate::rooms::{
    add_client_spec, add_entity_spec, room_or_empty, RoomTable, RoomView,
};
use vstd::prelude::*;

verus! {

/// Whether the resolver has processed a connect event yet. Before the first
/// processed event the resolver would fall back to ungated broadcast; the
/// policy turns `Active` as soon as a payload-bearing entity is processed and
/// stays so for the life of the process.
#[derive(Clone, Copy, Debug, PartialEq, Eq, Structural)]
pub enum RoomingPolicy {
    NotYetInitialized,
    Active,
}

/// The room identifier derived deterministically from a connecting client's
/// identity: one room per client.
pub open spec fn room_id_for(client: u64) -> u64 {
    client
}

/// Whether some entity carries the payload component.
pub open spec fn any_payload(s: Seq<EntityRecord>) -> bool {
    exists|i: int| 0 <= i < s.len() && (#[trigger] s[i]).payload is Some
}

/// The identifiers of the entities carrying the payload component.
pub open spec fn payload_ids(s: Seq<EntityRecord>) -> Set<u64> {
    Set::new(
        |id: u64|
            exists|i: int| 0 <= i < s.len() && (#[trigger] s[i]).payload is Some && s[i].id == id,
    )
}

/// The replication target the resolver assigns: addressed to all clients,
/// with visibility gated by room membership.
pub open spec fn interest_managed_target() -> Replicate {
    Replicate { scope: TargetScope::All, relevance: RelevanceMode::InterestManagement }
}

/// What one connect event does to one entity record: a payload-bearing
/// entity is retargeted and gains a baseline child payload; any other entity
/// is left alone.
pub open spec fn resolved_record(e: EntityRecord) -> EntityRecord {
    if e.payload is Some {
        EntityRecord {
            id: e.id,
            payload: e.payload,
            carrier: e.carrier,
            label: e.label,
            child_payload: Some(ComponentA(0)),
            target: Some(interest_managed_target()),
        }
    } else {
        e
    }
}

/// What one connect event does to the whole registry.
pub open spec fn resolved_records(s: Seq<EntityRecord>) -> Seq<EntityRecord> {
    s.map_values(|e: EntityRecord| resolved_record(e))
}

/// What one connect event does to the room table: if any entity carries the
/// payload component, the client's room gains the client and every
/// payload-bearing entity; otherwise nothing changes.
pub open spec fn connect_rooms_spec(
    m: Map<u64, RoomView>,
    s: Seq<EntityRecord>,
    client: u64,
) -> Map<u64, RoomView> {
    if !any_payload(s) {
        m
    } else {
        let rid = room_id_for(client);
        let room = room_or_empty(m, rid);
        m.insert(
            rid,
            RoomView {
                clients: room.clients.insert(client),
                entities: room.entities.union(payload_ids(s)),
            },
        )
    }
}

/// Extending the scanned prefix by one entity extends its payload facts by
/// exactly that entity.
proof fn lemma_payload_ids_step(s: Seq<EntityRecord>, i: int)
    requires
        0 <= i < s.len(),
    ensures
        payload_ids(s.take(i + 1)) == if s[i].payload is Some {
            payload_ids(s.take(i)).insert(s[i].id)
        } else {
            payload_ids(s.take(i))
        },
        any_payload(s.take(i + 1)) == (any_payload(s.take(i)) || s[i].payload is Some),
{
    let a = s.take(i);
    let b = s.take(i + 1);
    assert forall|j: int| 0 <= j < b.len() implies #[trigger] b[j] == s[j] by {}
    assert forall|x: u64| #[trigger]
        payload_ids(b).contains(x) == (payload_ids(a).contains(x) || (s[i].payload is Some && s[i].id
            == x)) by {
        if payload_ids(b).contains(x) {
            let j = choose|j: int|
                0 <= j < b.len() && (#[trigger] b[j]).payload is Some && b[j].id == x;
            if j < i {
                assert(a[j] == s[j]);
                assert(payload_ids(a).contains(x));
            }
        }
        if payload_ids(a).contains(x) {
            let j = choose|j: int|
                0 <= j < a.len() && (#[trigger] a[j]).payload is Some && a[j].id == x;
            assert(b[j] == s[j]);
            assert(payload_ids(b).contains(x));
        }
        if s[i].payload is Some && s[i].id == x {
            assert(b[i].payload is Some && b[i].id == x);
            assert(payload_ids(b).contains(x));
        }
    }
    if s[i].payload is Some {
        assert(payload_ids(b) =~= payload_ids(a).insert(s[i].id));
        assert(b[i].payload is Some);
        assert(any_payload(b));
    } else {
        assert(payload_ids(b) =~= payload_ids(a));
        if any_payload(b) {
            let j = choose|j: int| 0 <= j < b.len() && (#[trigger] b[j]).payload is Some;
            assert(j != i);
            assert(a[j] == s[j]);
            assert(any_payload(a));
        }
        if any_payload(a) {
            let j = choose|j: int| 0 <= j < a.len() && (#[trigger] a[j]).payload is Some;
            assert(b[j] == s[j]);
            assert(any_payload(b));
        }
    }
}

/// Registering the client and one payload-bearing entity into the client's
/// room advances the room table from the state after scanning `i` entities
/// to the state after scanning `i + 1`.
proof fn lemma_connect_step(m0: Map<u64, RoomView>, s: Seq<EntityRecord>, client: u64, i: int)
    requires
        0 <= i < s.len(),
        s[i].payload is Some,
    ensures
        add_entity_spec(
            add_client_spec(connect_rooms_spec(m0, s.take(i), client), room_id_for(client), client),
            room_id_for(client),
            s[i].id,
        ) == connect_rooms_spec(m0, s.take(i + 1), client),
{
    lemma_payload_ids_step(s, i);
    let rid = room_id_for(client);
    let cur = connect_rooms_spec(m0, s.take(i), client);
    let lhs = add_entity_spec(add_client_spec(cur, rid, client), rid, s[i].id);
    let rhs = connect_rooms_spec(m0, s.take(i + 1), client);
    let base = room_or_empty(m0, rid);
    if any_payload(s.take(i)) {
        assert(cur.dom().contains(rid));
        assert(cur[rid] == (RoomView {
            clients: base.clients.insert(client),
            entities: base.entities.union(payload_ids(s.take(i))),
        }));
        assert(lhs[rid].clients =~= base.clients.insert(client));
        assert(lhs[rid].entities =~= base.entities.union(payload_ids(s.take(i + 1))));
        assert(lhs =~~= rhs);
    } else {
        assert(cur == m0);
        assert(payload_ids(s.take(i)) =~= Set::<u64>::empty());
        assert(lhs[rid].clients =~= base.clients.insert(client));
        assert(lhs[rid].entities =~= base.entities.union(payload_ids(s.take(i + 1))));
        assert(lhs =~~= rhs);
    }
}

/// Resolve one client-connect event: every entity currently carrying the
/// payload component (deliberately all of them, not just newly created ones
/// — a simplification that keeps resolution simple at small entity counts)
/// is registered, together with the connecting client, into the room derived
/// from the client's identity; its replication target becomes broadcast-all
/// scope with interest-managed relevance, and it gains a child payload reset
/// to the baseline value. The sticky rooming policy turns `Active` with the
/// first processed entity and never reverts.
#[verifier::loop_isolation(false)]
pub fn resolve_connect(
    registry: &mut Registry,
    rooms: &mut RoomTable,
    policy: RoomingPolicy,
    client: u64,
) -> (next: RoomingPolicy)
    requires
        old(registry).wf(),
        old(rooms).wf(),
    ensures
        final(registry).wf(),
        final(rooms).wf(),
        final(registry).next_id == old(registry).next_id,
        final(registry).entities@ == resolved_records(old(registry).entities@),
        final(rooms)@ == connect_rooms_spec(old(rooms)@, old(registry).entities@, client),
        next == if any_payload(old(registry).entities@) {
            RoomingPolicy::Active
        } else {
            policy
        },
{
    let mut pol = policy;
    let mut i: usize = 0;
    while i < registry.entities.len()
        invariant
            0 <= i <= registry.entities@.len(),
            registry.entities@.len() == old(registry).entities@.len(),
            registry.next_id == old(registry).next_id,
            forall|j: int|
                i <= j < registry.entities@.len() ==> registry.entities@[j] == old(
                    registry,
                ).entities@[j],
            forall|j: int|
                0 <= j < i ==> registry.entities@[j] == resolved_record(
                    old(registry).entities@[j],
                ),
            rooms.wf(),
            rooms@ == connect_rooms_spec(
                old(rooms)@,
                old(registry).entities@.take(i as int),
                client,
            ),
            pol == if any_payload(old(registry).entities@.take(i as int)) {
                RoomingPolicy::Active
            } else {
                policy
            },
        decreases registry.entities@.len() - i,
    {
        let ghost s0 = old(registry).entities@;
        if registry.entities[i].payload.is_some() {
            pol = RoomingPolicy::Active;
            if matches!(pol, RoomingPolicy::Active) {
                let ghost m_pre = rooms@;
                let ghost prev_seq = registry.entities@;
                let mut e = registry.entities.remove(i);
                let eid = e.id;
                let rid = client;
                rooms.add_client(rid, client);
                rooms.add_entity(rid, eid);
                e.target = Some(
                    Replicate {
                        scope: TargetScope::All,
                        relevance: RelevanceMode::InterestManagement,
                    },
                );
                e.child_payload = Some(ComponentA(0));
                registry.entities.insert(i, e);
                proof {
                    lemma_connect_step(old(rooms)@, s0, client, i as int);
                    lemma_payload_ids_step(s0, i as int);
                    assert(registry.entities@ =~= prev_seq.update(i as int, e));
                    assert(registry.entities@[i as int] == resolved_record(s0[i as int]));
                }
            } else {
                // Startup-ordering edge case: before the rooming policy has
                // ever turned `Active`, entities would be broadcast without
                // room gating. The sticky policy is set just above, so this
                // branch cannot run in steady state.
                let ghost prev_seq = registry.entities@;
                let mut e = registry.entities.remove(i);
                e.target = Some(
                    Replicate { scope: TargetScope::All, relevance: RelevanceMode::BroadcastAll },
                );
                registry.entities.insert(i, e);
                proof {
                    assert(registry.entities@ =~= prev_seq.update(i as int, e));
                }
            }
        } else {
            proof {
                lemma_payload_ids_step(s0, i as int);
                assert(payload_ids(s0.take(i as int + 1)) == payload_ids(s0.take(i as int)));
                assert(connect_rooms_spec(old(rooms)@, s0.take(i as int + 1), client)
                    =~~= connect_rooms_spec(old(rooms)@, s0.take(i as int), client));
            }
        }
        i = i + 1;
    }
    proof {
        assert(old(registry).entities@.take(registry.entities@.len() as int) =~= old(
            registry,
        ).entities@);
        assert(registry.entities@ =~= resolved_records(old(registry).entities@));
        assert forall|j: int|
            0 <= j < registry.entities@.len() implies (#[trigger] registry.entities@[j]).id == old(
            registry,
        ).entities@[j].id by {}
        assert(registry.wf());
    }
    pol
}

} // verus!
