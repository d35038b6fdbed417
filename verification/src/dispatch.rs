//! The replication dispatcher: once per replication interval it derives, for
//! one client, the set of entities that should currently be replicated to it,
//! and turns the difference against the previous interval into the minimal
//! set of start / stop / update directives for the transport layer.

use crate::registry::{EntityRecord, Registry, RelevanceMode};
use crate::rooms::{contains_u64, visible_to, RoomTable, RoomView};
use vstd::prelude::*;

verus! {

broadcast use vstd::seq_lib::group_seq_properties;

/// One instruction to the transport layer about one entity and one client:
/// begin replicating it, cease replicating it, or refresh its value while it
/// stays visible.
#[derive(Clone, Copy, Debug, PartialEq, Eq, Structural)]
pub enum Directive {
    Start(u64),
    Stop(u64),
    Update(u64),
}

/// Whether the entity at index `i` is replicated to `client`: an entity with
/// no replication target is not replicated at all; a broadcast-all target is
/// visible unconditionally; an interest-managed target is visible exactly
/// when a room shared with the client holds the entity.
pub open spec fn entity_visible(
    s: Seq<EntityRecord>,
    m: Map<u64, RoomView>,
    client: u64,
    i: int,
) -> bool {
    match s[i].target {
        Some(rep) => rep.relevance == RelevanceMode::BroadcastAll || visible_to(m, client).contains(
            s[i].id,
        ),
        None => false,
    }
}

/// The identifiers visible to `client` this tick, in registry order.
#[verifier::loop_isolation(false)]
pub fn visible_entities(registry: &Registry, rooms: &RoomTable, client: u64) -> (r: Vec<u64>)
    requires
        registry.wf(),
        rooms.wf(),
    ensures
        r@.no_duplicates(),
        forall|e: u64|
            #[trigger] r@.contains(e) <==> exists|i: int|
                0 <= i < registry.entities@.len() && (#[trigger] registry.entities@[i]).id == e
                    && entity_visible(registry.entities@, rooms@, client, i),
{
    let mut out: Vec<u64> = Vec::new();
    let mut k: usize = 0;
    while k < registry.entities.len()
        invariant
            0 <= k <= registry.entities@.len(),
            out@.no_duplicates(),
            forall|e: u64|
                #[trigger] out@.contains(e) <==> exists|i: int|
                    0 <= i < k && (#[trigger] registry.entities@[i]).id == e && entity_visible(
                        registry.entities@,
                        rooms@,
                        client,
                        i,
                    ),
        decreases registry.entities@.len() - k,
    {
        let ghost prev_out = out@;
        let visible = match &registry.entities[k].target {
            Some(rep) => match rep.relevance {
                RelevanceMode::BroadcastAll => true,
                RelevanceMode::InterestManagement => rooms.sees(client, registry.entities[k].id),
            },
            None => false,
        };
        if visible {
            let e = registry.entities[k].id;
            if !contains_u64(&out, e) {
                out.push(e);
                proof {
                    lemma_push_fresh_keeps_no_duplicates(prev_out, e);
                }
            }
            proof {
                assert(entity_visible(registry.entities@, rooms@, client, k as int));
                assert forall|x: u64| #[trigger]
                    out@.contains(x) == (prev_out.contains(x) || x == e) by {}
                assert forall|x: u64| #[trigger]
                    out@.contains(x) == (exists|i: int|
                        0 <= i < k + 1 && (#[trigger] registry.entities@[i]).id == x
                            && entity_visible(registry.entities@, rooms@, client, i)) by {
                    if out@.contains(x) {
                        if x == e {
                            assert(registry.entities@[k as int].id == x && entity_visible(
                                registry.entities@,
                                rooms@,
                                client,
                                k as int,
                            ));
                        }
                    }
                    if exists|i: int|
                        0 <= i < k + 1 && (#[trigger] registry.entities@[i]).id == x
                            && entity_visible(registry.entities@, rooms@, client, i) {
                        let i = choose|i: int|
                            0 <= i < k + 1 && (#[trigger] registry.entities@[i]).id == x
                                && entity_visible(registry.entities@, rooms@, client, i);
                    }
                }
            }
        } else {
            proof {
                assert(!entity_visible(registry.entities@, rooms@, client, k as int));
                assert forall|x: u64| #[trigger]
                    out@.contains(x) == (exists|i: int|
                        0 <= i < k + 1 && (#[trigger] registry.entities@[i]).id == x
                            && entity_visible(registry.entities@, rooms@, client, i)) by {
                    if exists|i: int|
                        0 <= i < k + 1 && (#[trigger] registry.entities@[i]).id == x
                            && entity_visible(registry.entities@, rooms@, client, i) {
                        let i = choose|i: int|
                            0 <= i < k + 1 && (#[trigger] registry.entities@[i]).id == x
                                && entity_visible(registry.entities@, rooms@, client, i);
                        assert(i < k);
                    }
                }
            }
        }
        k = k + 1;
    }
    out
}

/// The minimal delta between the previously visible set and the currently
/// visible set of one client: a start for every entity that entered, a stop
/// for every entity that left, and an update for every entity that stayed.
#[verifier::loop_isolation(false)]
pub fn directives(prev: &Vec<u64>, cur: &Vec<u64>) -> (r: Vec<Directive>)
    requires
        prev@.no_duplicates(),
        cur@.no_duplicates(),
    ensures
        r@.no_duplicates(),
        forall|e: u64|
            #[trigger] r@.contains(Directive::Stop(e)) <==> (prev@.contains(e) && !cur@.contains(
                e,
            )),
        forall|e: u64|
            #[trigger] r@.contains(Directive::Start(e)) <==> (cur@.contains(e) && !prev@.contains(
                e,
            )),
        forall|e: u64|
            #[trigger] r@.contains(Directive::Update(e)) <==> (cur@.contains(e) && prev@.contains(
                e,
            )),
{
    let mut out: Vec<Directive> = Vec::new();
    let mut k: usize = 0;
    while k < prev.len()
        invariant
            0 <= k <= prev@.len(),
            out@.no_duplicates(),
            forall|e: u64|
                #[trigger] out@.contains(Directive::Stop(e)) <==> (prev@.subrange(
                    0,
                    k as int,
                ).contains(e) && !cur@.contains(e)),
            forall|e: u64| !(#[trigger] out@.contains(Directive::Start(e))),
            forall|e: u64| !(#[trigger] out@.contains(Directive::Update(e))),
        decreases prev@.len() - k,
    {
        let e = prev[k];
        if !contains_u64(cur, e) {
            let ghost prev_out = out@;
            out.push(Directive::Stop(e));
            proof {
                assert(prev@.subrange(0, k as int + 1).contains(e));
                assert(!prev_out.contains(Directive::Stop(e))) by {
                    if prev@.subrange(0, k as int).contains(e) {
                        let j = choose|j: int| 0 <= j < k && prev@.subrange(0, k as int)[j] == e;
                        assert(prev@[j] == prev@[k as int]);
                    }
                }
                lemma_push_fresh_directive(prev_out, Directive::Stop(e));
                assert forall|y: Directive| #[trigger]
                    out@.contains(y) == (prev_out.contains(y) || y == Directive::Stop(e)) by {}
                assert forall|x: u64| #[trigger]
                    out@.contains(Directive::Stop(x)) == (prev@.subrange(0, k as int + 1).contains(
                        x,
                    ) && !cur@.contains(x)) by {
                    assert(prev@.subrange(0, k as int).push(prev@[k as int]) =~= prev@.subrange(
                        0,
                        k as int + 1,
                    ));
                }
            }
        } else {
            proof {
                assert forall|x: u64| #[trigger]
                    out@.contains(Directive::Stop(x)) == (prev@.subrange(0, k as int + 1).contains(
                        x,
                    ) && !cur@.contains(x)) by {
                    assert(prev@.subrange(0, k as int).push(prev@[k as int]) =~= prev@.subrange(
                        0,
                        k as int + 1,
                    ));
                }
            }
        }
        k = k + 1;
    }
    proof {
        assert(prev@.subrange(0, prev@.len() as int) =~= prev@);
    }
    let mut t: usize = 0;
    while t < cur.len()
        invariant
            0 <= t <= cur@.len(),
            out@.no_duplicates(),
            forall|e: u64|
                #[trigger] out@.contains(Directive::Stop(e)) <==> (prev@.contains(e)
                    && !cur@.contains(e)),
            forall|e: u64|
                #[trigger] out@.contains(Directive::Start(e)) <==> (cur@.subrange(
                    0,
                    t as int,
                ).contains(e) && !prev@.contains(e)),
            forall|e: u64|
                #[trigger] out@.contains(Directive::Update(e)) <==> (cur@.subrange(
                    0,
                    t as int,
                ).contains(e) && prev@.contains(e)),
        decreases cur@.len() - t,
    {
        let e = cur[t];
        let ghost prev_out = out@;
        let d = if contains_u64(prev, e) {
            Directive::Update(e)
        } else {
            Directive::Start(e)
        };
        out.push(d);
        proof {
            assert(cur@.subrange(0, t as int).push(cur@[t as int]) =~= cur@.subrange(
                0,
                t as int + 1,
            ));
            assert(!prev_out.contains(d)) by {
                if cur@.subrange(0, t as int).contains(e) {
                    let j = choose|j: int| 0 <= j < t && cur@.subrange(0, t as int)[j] == e;
                    assert(cur@[j] == cur@[t as int]);
                }
            }
            lemma_push_fresh_directive(prev_out, d);
            assert forall|y: Directive| #[trigger]
                out@.contains(y) == (prev_out.contains(y) || y == d) by {}
        }
        t = t + 1;
    }
    proof {
        assert(cur@.subrange(0, cur@.len() as int) =~= cur@);
    }
    out
}

/// Pushing an identifier that is not yet present keeps a sequence
/// duplicate-free.
proof fn lemma_push_fresh_keeps_no_duplicates(s: Seq<u64>, x: u64)
    requires
        s.no_duplicates(),
        !s.contains(x),
    ensures
        s.push(x).no_duplicates(),
{
    let t = s.push(x);
    assert forall|a: int, b: int| 0 <= a < b < t.len() implies t[a] != t[b] by {
        if b == s.len() {
            assert(t[a] == s[a]);
            if s[a] == x {
                assert(s.contains(x));
            }
        } else {
            assert(t[a] == s[a] && t[b] == s[b]);
        }
    }
}

/// The same, for directives.
proof fn lemma_push_fresh_directive(s: Seq<Directive>, x: Directive)
    requires
        s.no_duplicates(),
        !s.contains(x),
    ensures
        s.push(x).no_duplicates(),
{
    let t = s.push(x);
    assert forall|a: int, b: int| 0 <= a < b < t.len() implies t[a] != t[b] by {
        if b == s.len() {
            assert(t[a] == s[a]);
            if s[a] == x {
                assert(s.contains(x));
            }
        } else {
            assert(t[a] == s[a] && t[b] == s[b]);
        }
    }
}

} // verus!
