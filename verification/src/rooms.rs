//! The room table: a map from room identifiers to two member sets, one of
//! clients and one of entities. A client in a room receives replication
//! updates for every entity in that room; rooms are created lazily and
//! reclaimed as soon as both member sets become empty.

use vstd::prelude::*;

verus! {

broadcast use vstd::seq_lib::group_seq_properties;

/// The mathematical content of one room: who is in it and what it holds.
#[verifier::ext_equal]
pub struct RoomView {
    pub clients: Set<u64>,
    pub entities: Set<u64>,
}

impl RoomView {
    pub open spec fn empty() -> RoomView {
        RoomView { clients: Set::empty(), entities: Set::empty() }
    }

    pub open spec fn is_empty(self) -> bool {
        self.clients.is_empty() && self.entities.is_empty()
    }
}

/// One room as stored: its identifier and its two member lists, each free of
/// duplicates so that a single removal erases membership.
pub struct Room {
    pub id: u64,
    pub clients: Vec<u64>,
    pub entities: Vec<u64>,
}

impl Room {
    pub open spec fn wf(self) -> bool {
        self.clients@.no_duplicates() && self.entities@.no_duplicates()
    }
}

impl View for Room {
    type V = RoomView;

    open spec fn view(&self) -> RoomView {
        RoomView {
            clients: Set::new(|c: u64| self.clients@.contains(c)),
            entities: Set::new(|e: u64| self.entities@.contains(e)),
        }
    }
}

/// Index of the room with identifier `id` in `s`, assuming one exists.
pub open spec fn room_index_of(s: Seq<Room>, id: u64) -> int {
    choose|i: int| 0 <= i < s.len() && s[i].id == id
}

/// What `create_or_get_room` does to the room map: a lazy, idempotent
/// creation of an empty room.
pub open spec fn create_room_spec(m: Map<u64, RoomView>, id: u64) -> Map<u64, RoomView> {
    if m.dom().contains(id) {
        m
    } else {
        m.insert(id, RoomView::empty())
    }
}

/// The content of room `id` in `m`, an empty room standing in for an absent
/// one (rooms are referenced lazily).
pub open spec fn room_or_empty(m: Map<u64, RoomView>, id: u64) -> RoomView {
    if m.dom().contains(id) {
        m[id]
    } else {
        RoomView::empty()
    }
}

/// What `add_client` does to the room map: the room is created if absent and
/// the client joins its client set (a no-op if already a member).
pub open spec fn add_client_spec(m: Map<u64, RoomView>, id: u64, client: u64) -> Map<
    u64,
    RoomView,
> {
    let room = room_or_empty(m, id);
    m.insert(id, RoomView { clients: room.clients.insert(client), entities: room.entities })
}

/// What `add_entity` does to the room map.
pub open spec fn add_entity_spec(m: Map<u64, RoomView>, id: u64, entity: u64) -> Map<
    u64,
    RoomView,
> {
    let room = room_or_empty(m, id);
    m.insert(id, RoomView { clients: room.clients, entities: room.entities.insert(entity) })
}

/// What `remove_client` does to the room map: a no-op on an unknown room;
/// otherwise the client leaves, and a room left with both member sets empty
/// is reclaimed.
pub open spec fn remove_client_spec(m: Map<u64, RoomView>, id: u64, client: u64) -> Map<
    u64,
    RoomView,
> {
    if !m.dom().contains(id) {
        m
    } else {
        let room = RoomView { clients: m[id].clients.remove(client), entities: m[id].entities };
        if room.is_empty() {
            m.remove(id)
        } else {
            m.insert(id, room)
        }
    }
}

/// What `remove_entity` does to the room map.
pub open spec fn remove_entity_spec(m: Map<u64, RoomView>, id: u64, entity: u64) -> Map<
    u64,
    RoomView,
> {
    if !m.dom().contains(id) {
        m
    } else {
        let room = RoomView { clients: m[id].clients, entities: m[id].entities.remove(entity) };
        if room.is_empty() {
            m.remove(id)
        } else {
            m.insert(id, room)
        }
    }
}

/// The set of entities visible to `client`: the union of the entity sets of
/// every room that counts `client` as a member.
pub open spec fn visible_to(m: Map<u64, RoomView>, client: u64) -> Set<u64> {
    Set::new(
        |e: u64|
            exists|r: u64|
                #[trigger] m.dom().contains(r) && m[r].clients.contains(client)
                    && m[r].entities.contains(e),
    )
}

/// The room table. Its view is the map from room identifier to room content.
pub struct RoomTable {
    pub rooms: Vec<Room>,
}

impl View for RoomTable {
    type V = Map<u64, RoomView>;

    open spec fn view(&self) -> Map<u64, RoomView> {
        Map::new(
            |id: u64|
                exists|i: int| 0 <= i < self.rooms@.len() && (#[trigger] self.rooms@[i]).id == id,
            |id: u64| self.rooms@[room_index_of(self.rooms@, id)]@,
        )
    }
}

impl RoomTable {
    /// Room identifiers are unique and every room's member lists are
    /// duplicate-free.
    pub open spec fn wf(self) -> bool {
        &&& forall|i: int, j: int|
            0 <= i < j < self.rooms@.len() ==> (#[trigger] self.rooms@[i]).id
                != (#[trigger] self.rooms@[j]).id
        &&& forall|i: int| 0 <= i < self.rooms@.len() ==> (#[trigger] self.rooms@[i]).wf()
    }

    pub fn new() -> (r: RoomTable)
        ensures
            r.wf(),
            r@ == Map::<u64, RoomView>::empty(),
    {
        let t = RoomTable { rooms: Vec::new() };
        proof {
            assert(t@ =~= Map::<u64, RoomView>::empty());
        }
        t
    }

    /// The stored room at index `i` is what the view returns for its
    /// identifier.
    proof fn lemma_view_index(self, i: int)
        requires
            self.wf(),
            0 <= i < self.rooms@.len(),
        ensures
            self@.dom().contains(self.rooms@[i].id),
            self@[self.rooms@[i].id] == self.rooms@[i]@,
    {
        let id = self.rooms@[i].id;
        assert(self@.dom().contains(id));
        let j = room_index_of(self.rooms@, id);
        assert(0 <= j < self.rooms@.len() && self.rooms@[j].id == id);
        if i != j {
            if i < j {
                assert(self.rooms@[i].id != self.rooms@[j].id);
            } else {
                assert(self.rooms@[j].id != self.rooms@[i].id);
            }
        }
    }

    #[verifier::loop_isolation(false)]
    fn find_room(&self, id: u64) -> (r: Option<usize>)
        requires
            self.wf(),
        ensures
            match r {
                Some(i) => i < self.rooms@.len() && self.rooms@[i as int].id == id
                    && self@.dom().contains(id) && self@[id] == self.rooms@[i as int]@,
                None => !self@.dom().contains(id),
            },
    {
        let mut k: usize = 0;
        while k < self.rooms.len()
            invariant
                0 <= k <= self.rooms@.len(),
                forall|j: int| 0 <= j < k ==> (#[trigger] self.rooms@[j]).id != id,
            decreases self.rooms@.len() - k,
        {
            if self.rooms[k].id == id {
                proof {
                    self.lemma_view_index(k as int);
                }
                return Some(k);
            }
            k = k + 1;
        }
        None
    }

    /// After pushing a room with a fresh identifier: the table stays well
    /// formed, old rooms keep their images, and the new identifier is bound.
    proof fn lemma_pushed_room(self, prev: RoomTable, id: u64)
        requires
            prev.wf(),
            !prev@.dom().contains(id),
            self.rooms@.len() == prev.rooms@.len() + 1,
            self.rooms@.subrange(0, prev.rooms@.len() as int) == prev.rooms@,
            self.rooms@.last().id == id,
            self.rooms@.last().wf(),
        ensures
            self.wf(),
            forall|r: u64|
                r != id ==> (#[trigger] self@.dom().contains(r)) == prev@.dom().contains(r),
            forall|r: u64| r != id && prev@.dom().contains(r) ==> #[trigger] self@[r] == prev@[r],
            self@.dom().contains(id),
            self@[id] == self.rooms@.last()@,
    {
        let n = prev.rooms@.len() as int;
        assert forall|i: int| 0 <= i < n implies #[trigger] self.rooms@[i] == prev.rooms@[i] by {
            assert(self.rooms@.subrange(0, n)[i] == self.rooms@[i]);
        }
        assert forall|i: int| 0 <= i < n implies (#[trigger] self.rooms@[i]).id != id by {
            if self.rooms@[i].id == id {
                prev.lemma_view_index(i);
            }
        }
        assert(self.wf());
        assert forall|r: u64| r != id implies (#[trigger] self@.dom().contains(r))
            == prev@.dom().contains(r) by {
            if prev@.dom().contains(r) {
                let i = choose|i: int| 0 <= i < n && (#[trigger] prev.rooms@[i]).id == r;
                assert(self.rooms@[i].id == r);
            }
            if self@.dom().contains(r) {
                let i = choose|i: int|
                    0 <= i < self.rooms@.len() && (#[trigger] self.rooms@[i]).id == r;
                assert(i < n);
                assert(prev.rooms@[i].id == r);
            }
        }
        assert forall|r: u64| r != id && prev@.dom().contains(r) implies #[trigger] self@[r]
            == prev@[r] by {
            let i = choose|i: int| 0 <= i < n && (#[trigger] prev.rooms@[i]).id == r;
            prev.lemma_view_index(i);
            self.lemma_view_index(i);
        }
        assert(self.rooms@[self.rooms@.len() - 1].id == id);
        self.lemma_view_index(self.rooms@.len() - 1);
    }

    /// After replacing the room at index `i` by one with the same identifier,
    /// only that identifier's image in the view can change.
    proof fn lemma_rooms_updated(self, prev: RoomTable, i: int)
        requires
            prev.wf(),
            0 <= i < prev.rooms@.len(),
            self.rooms@ == prev.rooms@.update(i, self.rooms@[i]),
            self.rooms@[i].id == prev.rooms@[i].id,
            self.rooms@[i].wf(),
        ensures
            self.wf(),
            self@.dom() == prev@.dom(),
            forall|r: u64|
                r != prev.rooms@[i].id && prev@.dom().contains(r) ==> #[trigger] self@[r]
                    == prev@[r],
            self@[prev.rooms@[i].id] == self.rooms@[i]@,
    {
        let id = prev.rooms@[i].id;
        assert(self.wf());
        assert forall|r: u64| #[trigger]
            self@.dom().contains(r) == prev@.dom().contains(r) by {
            if self@.dom().contains(r) {
                let k = choose|k: int|
                    0 <= k < self.rooms@.len() && (#[trigger] self.rooms@[k]).id == r;
                assert(prev.rooms@[k].id == r);
            }
            if prev@.dom().contains(r) {
                let k = choose|k: int|
                    0 <= k < prev.rooms@.len() && (#[trigger] prev.rooms@[k]).id == r;
                assert(self.rooms@[k].id == r);
            }
        }
        assert(self@.dom() =~= prev@.dom());
        assert forall|r: u64| r != id && prev@.dom().contains(r) implies #[trigger] self@[r]
            == prev@[r] by {
            let k = choose|k: int| 0 <= k < prev.rooms@.len() && (#[trigger] prev.rooms@[k]).id == r;
            prev.lemma_view_index(k);
            assert(k != i);
            assert(self.rooms@[k] == prev.rooms@[k]);
            self.lemma_view_index(k);
        }
        self.lemma_view_index(i);
    }

    /// After removing the room at index `i`, its identifier leaves the view
    /// and every other room keeps its image.
    proof fn lemma_rooms_removed(self, prev: RoomTable, i: int)
        requires
            prev.wf(),
            0 <= i < prev.rooms@.len(),
            self.rooms@ == prev.rooms@.remove(i),
        ensures
            self.wf(),
            self@.dom() == prev@.dom().remove(prev.rooms@[i].id),
            forall|r: u64|
                r != prev.rooms@[i].id && prev@.dom().contains(r) ==> #[trigger] self@[r]
                    == prev@[r],
    {
        let id = prev.rooms@[i].id;
        let n = prev.rooms@.len() as int;
        assert forall|a: int, b: int|
            0 <= a < b < self.rooms@.len() implies (#[trigger] self.rooms@[a]).id
            != (#[trigger] self.rooms@[b]).id by {
            let a0 = if a < i {
                a
            } else {
                a + 1
            };
            let b0 = if b < i {
                b
            } else {
                b + 1
            };
            assert(self.rooms@[a] == prev.rooms@[a0]);
            assert(self.rooms@[b] == prev.rooms@[b0]);
        }
        assert forall|k: int|
            0 <= k < self.rooms@.len() implies (#[trigger] self.rooms@[k]).wf() by {
            let k0 = if k < i {
                k
            } else {
                k + 1
            };
            assert(self.rooms@[k] == prev.rooms@[k0]);
        }
        assert(self.wf());
        assert forall|r: u64| #[trigger]
            self@.dom().contains(r) == prev@.dom().remove(id).contains(r) by {
            if self@.dom().contains(r) {
                let k = choose|k: int|
                    0 <= k < self.rooms@.len() && (#[trigger] self.rooms@[k]).id == r;
                let k0 = if k < i {
                    k
                } else {
                    k + 1
                };
                assert(self.rooms@[k] == prev.rooms@[k0]);
                assert(prev.rooms@[k0].id == r);
                if r == id {
                    if k0 < i {
                        assert(prev.rooms@[k0].id != prev.rooms@[i].id);
                    } else {
                        assert(prev.rooms@[i].id != prev.rooms@[k0].id);
                    }
                }
            }
            if prev@.dom().remove(id).contains(r) {
                let k0 = choose|k0: int| 0 <= k0 < n && (#[trigger] prev.rooms@[k0]).id == r;
                assert(k0 != i);
                let k = if k0 < i {
                    k0
                } else {
                    k0 - 1
                };
                assert(self.rooms@[k] == prev.rooms@[k0]);
            }
        }
        assert(self@.dom() =~= prev@.dom().remove(id));
        assert forall|r: u64| r != id && prev@.dom().contains(r) implies #[trigger] self@[r]
            == prev@[r] by {
            let k0 = choose|k0: int| 0 <= k0 < n && (#[trigger] prev.rooms@[k0]).id == r;
            prev.lemma_view_index(k0);
            assert(k0 != i);
            let k = if k0 < i {
                k0
            } else {
                k0 - 1
            };
            assert(self.rooms@[k] == prev.rooms@[k0]);
            self.lemma_view_index(k);
        }
    }

    /// Idempotent room creation: an existing room is kept as it is, an
    /// absent one comes into being empty.
    pub fn create_or_get_room(&mut self, id: u64)
        requires
            old(self).wf(),
        ensures
            final(self).wf(),
            final(self)@ == create_room_spec(old(self)@, id),
    {
        let found = self.find_room(id);
        match found {
            Some(_) => {
                proof {
                    assert(self@ =~= create_room_spec(old(self)@, id));
                }
            },
            None => {
                self.rooms.push(Room { id, clients: Vec::new(), entities: Vec::new() });
                proof {
                    assert(self.rooms@.subrange(0, old(self).rooms@.len() as int) =~= old(
                        self,
                    ).rooms@);
                    self.lemma_pushed_room(*old(self), id);
                    assert(self.rooms@.last()@ =~= RoomView::empty());
                    assert(self@ =~= create_room_spec(old(self)@, id));
                }
            },
        }
    }

    /// Idempotent add: the client joins the room's client set, creating the
    /// room if it was absent.
    pub fn add_client(&mut self, id: u64, client: u64)
        requires
            old(self).wf(),
        ensures
            final(self).wf(),
            final(self)@ == add_client_spec(old(self)@, id, client),
    {
        let found = self.find_room(id);
        match found {
            Some(i) => {
                let mut room = self.rooms.remove(i);
                let ghost prev_room = room;
                if !contains_u64(&room.clients, client) {
                    room.clients.push(client);
                    proof {
                        lemma_push_fresh_no_duplicates(prev_room.clients@, client);
                    }
                }
                proof {
                    assert(room@.clients =~= prev_room@.clients.insert(client));
                    assert(room@ =~= (RoomView {
                        clients: prev_room@.clients.insert(client),
                        entities: prev_room@.entities,
                    }));
                }
                self.rooms.insert(i, room);
                proof {
                    assert(self.rooms@ =~= old(self).rooms@.update(i as int, room));
                    self.lemma_rooms_updated(*old(self), i as int);
                    assert(self@ =~= add_client_spec(old(self)@, id, client));
                }
            },
            None => {
                let mut clients: Vec<u64> = Vec::new();
                clients.push(client);
                let ghost cl = clients@;
                self.rooms.push(Room { id, clients, entities: Vec::new() });
                proof {
                    assert(self.rooms@.subrange(0, old(self).rooms@.len() as int) =~= old(
                        self,
                    ).rooms@);
                    self.lemma_pushed_room(*old(self), id);
                    assert(self.rooms@.last()@.clients =~= RoomView::empty().clients.insert(
                        client,
                    ));
                    assert(self.rooms@.last()@.entities =~= RoomView::empty().entities);
                    assert(self@ =~= add_client_spec(old(self)@, id, client));
                }
            },
        }
    }

    /// Idempotent add of an entity, symmetric to `add_client`.
    pub fn add_entity(&mut self, id: u64, entity: u64)
        requires
            old(self).wf(),
        ensures
            final(self).wf(),
            final(self)@ == add_entity_spec(old(self)@, id, entity),
    {
        let found = self.find_room(id);
        match found {
            Some(i) => {
                let mut room = self.rooms.remove(i);
                let ghost prev_room = room;
                if !contains_u64(&room.entities, entity) {
                    room.entities.push(entity);
                    proof {
                        lemma_push_fresh_no_duplicates(prev_room.entities@, entity);
                    }
                }
                proof {
                    assert(room@.entities =~= prev_room@.entities.insert(entity));
                    assert(room@ =~= (RoomView {
                        clients: prev_room@.clients,
                        entities: prev_room@.entities.insert(entity),
                    }));
                }
                self.rooms.insert(i, room);
                proof {
                    assert(self.rooms@ =~= old(self).rooms@.update(i as int, room));
                    self.lemma_rooms_updated(*old(self), i as int);
                    assert(self@ =~= add_entity_spec(old(self)@, id, entity));
                }
            },
            None => {
                let mut entities: Vec<u64> = Vec::new();
                entities.push(entity);
                self.rooms.push(Room { id, clients: Vec::new(), entities });
                proof {
                    assert(self.rooms@.subrange(0, old(self).rooms@.len() as int) =~= old(
                        self,
                    ).rooms@);
                    self.lemma_pushed_room(*old(self), id);
                    assert(self.rooms@.last()@.entities =~= RoomView::empty().entities.insert(
                        entity,
                    ));
                    assert(self.rooms@.last()@.clients =~= RoomView::empty().clients);
                    assert(self@ =~= add_entity_spec(old(self)@, id, entity));
                }
            },
        }
    }

    /// Idempotent removal of a client; removing from an unknown room is a
    /// no-op, and a room whose member sets both end up empty is reclaimed.
    pub fn remove_client(&mut self, id: u64, client: u64)
        requires
            old(self).wf(),
        ensures
            final(self).wf(),
            final(self)@ == remove_client_spec(old(self)@, id, client),
    {
        let found = self.find_room(id);
        match found {
            Some(i) => {
                let mut room = self.rooms.remove(i);
                let ghost prev_room = room;
                let pos = position_u64(&room.clients, client);
                match pos {
                    Some(p) => {
                        room.clients.remove(p);
                        proof {
                            lemma_remove_at_unique(prev_room.clients@, p as int, client);
                        }
                    },
                    None => {},
                }
                proof {
                    assert(room@.clients =~= prev_room@.clients.remove(client));
                    assert(room@ =~= (RoomView {
                        clients: prev_room@.clients.remove(client),
                        entities: prev_room@.entities,
                    }));
                }
                if room.clients.len() == 0 && room.entities.len() == 0 {
                    proof {
                        assert(self.rooms@ =~= old(self).rooms@.remove(i as int));
                        self.lemma_rooms_removed(*old(self), i as int);
                        assert(room@.clients =~= Set::<u64>::empty());
                        assert(room@.entities =~= Set::<u64>::empty());
                        assert(self@ =~= remove_client_spec(old(self)@, id, client));
                    }
                } else {
                    proof {
                        if room.clients@.len() > 0 {
                            assert(room@.clients.contains(room.clients@[0]));
                        } else {
                            assert(room@.entities.contains(room.entities@[0]));
                        }
                        assert(!room@.is_empty());
                    }
                    self.rooms.insert(i, room);
                    proof {
                        assert(self.rooms@ =~= old(self).rooms@.update(i as int, room));
                        self.lemma_rooms_updated(*old(self), i as int);
                        assert(self@ =~= remove_client_spec(old(self)@, id, client));
                    }
                }
            },
            None => {
                proof {
                    assert(self@ =~= remove_client_spec(old(self)@, id, client));
                }
            },
        }
    }

    /// Idempotent removal of an entity, symmetric to `remove_client`.
    pub fn remove_entity(&mut self, id: u64, entity: u64)
        requires
            old(self).wf(),
        ensures
            final(self).wf(),
            final(self)@ == remove_entity_spec(old(self)@, id, entity),
    {
        let found = self.find_room(id);
        match found {
            Some(i) => {
                let mut room = self.rooms.remove(i);
                let ghost prev_room = room;
                let pos = position_u64(&room.entities, entity);
                match pos {
                    Some(p) => {
                        room.entities.remove(p);
                        proof {
                            lemma_remove_at_unique(prev_room.entities@, p as int, entity);
                        }
                    },
                    None => {},
                }
                proof {
                    assert(room@.entities =~= prev_room@.entities.remove(entity));
                    assert(room@ =~= (RoomView {
                        clients: prev_room@.clients,
                        entities: prev_room@.entities.remove(entity),
                    }));
                }
                if room.clients.len() == 0 && room.entities.len() == 0 {
                    proof {
                        assert(self.rooms@ =~= old(self).rooms@.remove(i as int));
                        self.lemma_rooms_removed(*old(self), i as int);
                        assert(room@.clients =~= Set::<u64>::empty());
                        assert(room@.entities =~= Set::<u64>::empty());
                        assert(self@ =~= remove_entity_spec(old(self)@, id, entity));
                    }
                } else {
                    proof {
                        if room.clients@.len() > 0 {
                            assert(room@.clients.contains(room.clients@[0]));
                        } else {
                            assert(room@.entities.contains(room.entities@[0]));
                        }
                        assert(!room@.is_empty());
                    }
                    self.rooms.insert(i, room);
                    proof {
                        assert(self.rooms@ =~= old(self).rooms@.update(i as int, room));
                        self.lemma_rooms_updated(*old(self), i as int);
                        assert(self@ =~= remove_entity_spec(old(self)@, id, entity));
                    }
                }
            },
            None => {
                proof {
                    assert(self@ =~= remove_entity_spec(old(self)@, id, entity));
                }
            },
        }
    }

    /// The identifiers of all rooms currently present.
    #[verifier::loop_isolation(false)]
    fn room_ids(&self) -> (r: Vec<u64>)
        requires
            self.wf(),
        ensures
            r@.len() == self.rooms@.len(),
            forall|j: int| 0 <= j < r@.len() ==> r@[j] == (#[trigger] self.rooms@[j]).id,
            r@.no_duplicates(),
            forall|id: u64| #[trigger] r@.contains(id) <==> self@.dom().contains(id),
    {
        let mut r: Vec<u64> = Vec::new();
        let mut k: usize = 0;
        while k < self.rooms.len()
            invariant
                0 <= k <= self.rooms@.len(),
                r@.len() == k,
                forall|j: int| 0 <= j < k ==> r@[j] == (#[trigger] self.rooms@[j]).id,
            decreases self.rooms@.len() - k,
        {
            r.push(self.rooms[k].id);
            k = k + 1;
        }
        proof {
            assert forall|a: int, b: int| 0 <= a < b < r@.len() implies r@[a] != r@[b] by {
                assert(r@[a] == self.rooms@[a].id && r@[b] == self.rooms@[b].id);
            }
            assert forall|id: u64| #[trigger]
                r@.contains(id) == self@.dom().contains(id) by {
                if r@.contains(id) {
                    let j = choose|j: int| 0 <= j < r@.len() && r@[j] == id;
                    self.lemma_view_index(j);
                }
                if self@.dom().contains(id) {
                    let j = choose|j: int|
                        0 <= j < self.rooms@.len() && (#[trigger] self.rooms@[j]).id == id;
                    assert(r@[j] == id);
                }
            }
        }
        r
    }

    /// Disconnect-driven cleanup: the client leaves every room it is a
    /// member of; a room left with both member sets empty is reclaimed, and
    /// entities are left in place for the other members.
    #[verifier::loop_isolation(false)]
    pub fn remove_client_everywhere(&mut self, client: u64)
        requires
            old(self).wf(),
        ensures
            final(self).wf(),
            forall|r: u64|
                #[trigger] final(self)@.dom().contains(r) <==> (old(self)@.dom().contains(r)
                    && !(old(self)@[r].clients.remove(client).is_empty()
                    && old(self)@[r].entities.is_empty())),
            forall|r: u64|
                final(self)@.dom().contains(r) ==> #[trigger] final(self)@[r]
                    == (RoomView {
                    clients: old(self)@[r].clients.remove(client),
                    entities: old(self)@[r].entities,
                }),
    {
        let ids = self.room_ids();
        let ghost m0 = self@;
        proof {
            assert forall|j: int| 0 <= j < ids@.len() implies m0.dom().contains(
                #[trigger] ids@[j],
            ) by {
                assert(ids@.contains(ids@[j]));
            }
        }
        let mut i: usize = 0;
        while i < ids.len()
            invariant
                0 <= i <= ids@.len(),
                self.wf(),
                forall|j: int| 0 <= j < ids@.len() ==> m0.dom().contains(#[trigger] ids@[j]),
                forall|r: u64| #[trigger] self@.dom().contains(r) ==> m0.dom().contains(r),
                forall|j: int|
                    0 <= j < i ==> (#[trigger] self@.dom().contains(ids@[j]) <==> !(m0[
                        ids@[j]
                    ].clients.remove(client).is_empty() && m0[ids@[j]].entities.is_empty())),
                forall|j: int|
                    0 <= j < i && self@.dom().contains(#[trigger] ids@[j]) ==> self@[ids@[j]]
                        == (RoomView {
                        clients: m0[ids@[j]].clients.remove(client),
                        entities: m0[ids@[j]].entities,
                    }),
                forall|r: u64|
                    m0.dom().contains(r) && !ids@.subrange(0, i as int).contains(r) ==> (
                    #[trigger] self@.dom().contains(r) && self@[r] == m0[r]),
            decreases ids@.len() - i,
        {
            let id = ids[i];
            proof {
                assert(!ids@.subrange(0, i as int).contains(id)) by {
                    if ids@.subrange(0, i as int).contains(id) {
                        let j = choose|j: int|
                            0 <= j < i && ids@.subrange(0, i as int)[j] == id;
                        assert(ids@[j] == ids@[i as int]);
                    }
                }
                assert(self@.dom().contains(id) && self@[id] == m0[id]);
            }
            let ghost m_pre = self@;
            self.remove_client(id, client);
            proof {
                assert(ids@.subrange(0, i as int).push(ids@[i as int]) =~= ids@.subrange(
                    0,
                    i as int + 1,
                ));
                assert forall|r: u64|
                    m0.dom().contains(r) && !ids@.subrange(0, i as int + 1).contains(r) implies (
                    #[trigger] self@.dom().contains(r) && self@[r] == m0[r]) by {
                    assert(r != id);
                }
            }
            i = i + 1;
        }
        proof {
            assert(ids@.subrange(0, ids@.len() as int) =~= ids@);
            assert forall|r: u64| #[trigger]
                self@.dom().contains(r) == (m0.dom().contains(r) && !(m0[r].clients.remove(
                    client,
                ).is_empty() && m0[r].entities.is_empty())) by {
                if m0.dom().contains(r) {
                    assert(ids@.contains(r));
                    let j = choose|j: int| 0 <= j < ids@.len() && ids@[j] == r;
                }
            }
            assert forall|r: u64| self@.dom().contains(r) implies #[trigger] self@[r]
                == (RoomView {
                clients: m0[r].clients.remove(client),
                entities: m0[r].entities,
            }) by {
                assert(m0.dom().contains(r));
                assert(ids@.contains(r));
                let j = choose|j: int| 0 <= j < ids@.len() && ids@[j] == r;
            }
        }
    }

    /// Visibility through stored rooms, stated over indices instead of the
    /// map view; the two readings agree on a well-formed table.
    proof fn lemma_visible_to_index(self, client: u64)
        requires
            self.wf(),
        ensures
            forall|e: u64|
                visible_to(self@, client).contains(e) <==> exists|j: int|
                    0 <= j < self.rooms@.len() && (#[trigger] self.rooms@[j]).clients@.contains(
                        client,
                    ) && self.rooms@[j].entities@.contains(e),
    {
        assert forall|e: u64| #[trigger]
            visible_to(self@, client).contains(e) == (exists|j: int|
                0 <= j < self.rooms@.len() && (#[trigger] self.rooms@[j]).clients@.contains(client)
                    && self.rooms@[j].entities@.contains(e)) by {
            if visible_to(self@, client).contains(e) {
                let r = choose|r: u64|
                    #[trigger] self@.dom().contains(r) && self@[r].clients.contains(client)
                        && self@[r].entities.contains(e);
                let j = choose|j: int|
                    0 <= j < self.rooms@.len() && (#[trigger] self.rooms@[j]).id == r;
                self.lemma_view_index(j);
                assert(self.rooms@[j].clients@.contains(client));
                assert(self.rooms@[j].entities@.contains(e));
            }
            if exists|j: int|
                0 <= j < self.rooms@.len() && (#[trigger] self.rooms@[j]).clients@.contains(client)
                    && self.rooms@[j].entities@.contains(e) {
                let j = choose|j: int|
                    0 <= j < self.rooms@.len() && (#[trigger] self.rooms@[j]).clients@.contains(
                        client,
                    ) && self.rooms@[j].entities@.contains(e);
                self.lemma_view_index(j);
                let r = self.rooms@[j].id;
                assert(self@.dom().contains(r) && self@[r].clients.contains(client)
                    && self@[r].entities.contains(e));
                assert(visible_to(self@, client).contains(e));
            }
        }
    }

    /// Whether one entity is visible to one client through some room.
    #[verifier::loop_isolation(false)]
    pub fn sees(&self, client: u64, entity: u64) -> (r: bool)
        requires
            self.wf(),
        ensures
            r == visible_to(self@, client).contains(entity),
    {
        proof {
            self.lemma_visible_to_index(client);
        }
        let mut k: usize = 0;
        while k < self.rooms.len()
            invariant
                0 <= k <= self.rooms@.len(),
                forall|j: int|
                    0 <= j < k ==> !((#[trigger] self.rooms@[j]).clients@.contains(client)
                        && self.rooms@[j].entities@.contains(entity)),
            decreases self.rooms@.len() - k,
        {
            if contains_u64(&self.rooms[k].clients, client) && contains_u64(
                &self.rooms[k].entities,
                entity,
            ) {
                proof {
                    assert(self.rooms@[k as int].clients@.contains(client) && self.rooms@[
                        k as int
                    ].entities@.contains(entity));
                }
                return true;
            }
            k = k + 1;
        }
        false
    }

    /// The union of the entity sets of every room containing `client`,
    /// gathered without duplicates. This is the per-client visible set.
    #[verifier::loop_isolation(false)]
    pub fn members_visible_to(&self, client: u64) -> (r: Vec<u64>)
        requires
            self.wf(),
        ensures
            r@.no_duplicates(),
            forall|e: u64| #[trigger] r@.contains(e) <==> visible_to(self@, client).contains(e),
    {
        proof {
            self.lemma_visible_to_index(client);
        }
        let mut out: Vec<u64> = Vec::new();
        let mut k: usize = 0;
        while k < self.rooms.len()
            invariant
                0 <= k <= self.rooms@.len(),
                out@.no_duplicates(),
                forall|e: u64|
                    #[trigger] out@.contains(e) <==> exists|j: int|
                        0 <= j < k && (#[trigger] self.rooms@[j]).clients@.contains(client)
                            && self.rooms@[j].entities@.contains(e),
            decreases self.rooms@.len() - k,
        {
            if contains_u64(&self.rooms[k].clients, client) {
                let n = self.rooms[k].entities.len();
                let mut t: usize = 0;
                while t < n
                    invariant
                        0 <= t <= n,
                        0 <= k < self.rooms@.len(),
                        n == self.rooms@[k as int].entities@.len(),
                        self.rooms@[k as int].clients@.contains(client),
                        out@.no_duplicates(),
                        forall|e: u64|
                            #[trigger] out@.contains(e) <==> (exists|j: int|
                                0 <= j < k && (#[trigger] self.rooms@[j]).clients@.contains(client)
                                    && self.rooms@[j].entities@.contains(e)) || self.rooms@[
                                k as int
                            ].entities@.subrange(0, t as int).contains(e),
                    decreases n - t,
                {
                    let ghost prev_out = out@;
                    let e = self.rooms[k].entities[t];
                    if !contains_u64(&out, e) {
                        out.push(e);
                        proof {
                            lemma_push_fresh_no_duplicates(prev_out, e);
                        }
                    }
                    proof {
                        let ents = self.rooms@[k as int].entities@;
                        assert(ents.subrange(0, t as int).push(ents[t as int]) =~= ents.subrange(
                            0,
                            t + 1,
                        ));
                        assert(ents.subrange(0, t + 1).contains(e));
                        assert forall|x: u64| #[trigger] out@.contains(x)
                            == (prev_out.contains(x) || x == e) by {}
                    }
                    t = t + 1;
                }
                proof {
                    let ents = self.rooms@[k as int].entities@;
                    assert(ents.subrange(0, n as int) =~= ents);
                    assert forall|e: u64| #[trigger]
                        out@.contains(e) == (exists|j: int|
                            0 <= j < k + 1 && (#[trigger] self.rooms@[j]).clients@.contains(client)
                                && self.rooms@[j].entities@.contains(e)) by {
                        if out@.contains(e) {
                            if ents.contains(e) {
                                assert(self.rooms@[k as int].clients@.contains(client)
                                    && self.rooms@[k as int].entities@.contains(e));
                            }
                        }
                        if exists|j: int|
                            0 <= j < k + 1 && (#[trigger] self.rooms@[j]).clients@.contains(client)
                                && self.rooms@[j].entities@.contains(e) {
                            let j = choose|j: int|
                                0 <= j < k + 1 && (#[trigger] self.rooms@[j]).clients@.contains(
                                    client,
                                ) && self.rooms@[j].entities@.contains(e);
                        }
                    }
                }
            } else {
                proof {
                    assert forall|e: u64| #[trigger]
                        out@.contains(e) == (exists|j: int|
                            0 <= j < k + 1 && (#[trigger] self.rooms@[j]).clients@.contains(client)
                                && self.rooms@[j].entities@.contains(e)) by {
                        if exists|j: int|
                            0 <= j < k + 1 && (#[trigger] self.rooms@[j]).clients@.contains(client)
                                && self.rooms@[j].entities@.contains(e) {
                            let j = choose|j: int|
                                0 <= j < k + 1 && (#[trigger] self.rooms@[j]).clients@.contains(
                                    client,
                                ) && self.rooms@[j].entities@.contains(e);
                            assert(j < k);
                        }
                    }
                }
            }
            k = k + 1;
        }
        out
    }
}

/// Idempotent membership: adding a client to a room twice leaves the room
/// map — and with it every visible-entity result — exactly as adding it once.
pub proof fn lemma_add_client_idempotent(m: Map<u64, RoomView>, id: u64, client: u64)
    ensures
        add_client_spec(add_client_spec(m, id, client), id, client) == add_client_spec(
            m,
            id,
            client,
        ),
        forall|c: u64|
            visible_to(add_client_spec(add_client_spec(m, id, client), id, client), c)
                == visible_to(add_client_spec(m, id, client), c),
{
    let once = add_client_spec(m, id, client);
    let twice = add_client_spec(once, id, client);
    assert(once.dom().contains(id));
    assert(room_or_empty(once, id) == once[id]);
    assert(twice[id].clients =~= once[id].clients);
    assert(twice =~~= once);
}

/// Idempotent membership for entities: adding an entity to a room twice
/// leaves the room map exactly as adding it once.
pub proof fn lemma_add_entity_idempotent(m: Map<u64, RoomView>, id: u64, entity: u64)
    ensures
        add_entity_spec(add_entity_spec(m, id, entity), id, entity) == add_entity_spec(
            m,
            id,
            entity,
        ),
{
    let once = add_entity_spec(m, id, entity);
    let twice = add_entity_spec(once, id, entity);
    assert(once.dom().contains(id));
    assert(room_or_empty(once, id) == once[id]);
    assert(twice[id].entities =~= once[id].entities);
    assert(twice =~~= once);
}

/// Room reclamation: a removal that leaves both member sets of a room empty
/// deletes the room, so its identifier is absent from any subsequent
/// enumeration of rooms.
pub proof fn lemma_room_reclaimed_on_client_removal(m: Map<u64, RoomView>, id: u64, client: u64)
    requires
        m.dom().contains(id),
        m[id].clients.remove(client).is_empty(),
        m[id].entities.is_empty(),
    ensures
        !remove_client_spec(m, id, client).dom().contains(id),
{
}

/// Room reclamation, for the removal of the last entity.
pub proof fn lemma_room_reclaimed_on_entity_removal(m: Map<u64, RoomView>, id: u64, entity: u64)
    requires
        m.dom().contains(id),
        m[id].clients.is_empty(),
        m[id].entities.remove(entity).is_empty(),
    ensures
        !remove_entity_spec(m, id, entity).dom().contains(id),
{
}

/// Visibility union correctness: for a client that belongs to exactly the
/// rooms `r1` and `r2`, the visible-entity set is the union of the two
/// rooms' entity sets — however the memberships were inserted.
pub proof fn lemma_visibility_union(m: Map<u64, RoomView>, c: u64, r1: u64, r2: u64)
    requires
        m.dom().contains(r1),
        m.dom().contains(r2),
        m[r1].clients.contains(c),
        m[r2].clients.contains(c),
        forall|r: u64|
            #[trigger] m.dom().contains(r) && m[r].clients.contains(c) ==> r == r1 || r == r2,
    ensures
        visible_to(m, c) == m[r1].entities.union(m[r2].entities),
{
    assert forall|e: u64| #[trigger]
        visible_to(m, c).contains(e) == m[r1].entities.union(m[r2].entities).contains(e) by {
        if visible_to(m, c).contains(e) {
            let r = choose|r: u64|
                #[trigger] m.dom().contains(r) && m[r].clients.contains(c) && m[r].entities.contains(
                    e,
                );
            assert(r == r1 || r == r2);
        }
        if m[r1].entities.contains(e) {
            assert(m.dom().contains(r1) && m[r1].clients.contains(c) && m[r1].entities.contains(e));
            assert(visible_to(m, c).contains(e));
        }
        if m[r2].entities.contains(e) {
            assert(m.dom().contains(r2) && m[r2].clients.contains(c) && m[r2].entities.contains(e));
            assert(visible_to(m, c).contains(e));
        }
    }
    assert(visible_to(m, c) =~= m[r1].entities.union(m[r2].entities));
}

/// Linear membership test on a plain vector of identifiers.
#[verifier::loop_isolation(false)]
pub fn contains_u64(v: &Vec<u64>, x: u64) -> (r: bool)
    ensures
        r == v@.contains(x),
{
    let mut k: usize = 0;
    while k < v.len()
        invariant
            0 <= k <= v@.len(),
            forall|j: int| 0 <= j < k ==> v@[j] != x,
        decreases v@.len() - k,
    {
        if v[k] == x {
            return true;
        }
        k = k + 1;
    }
    false
}

/// Index of the first occurrence of `x` in `v`, if any.
#[verifier::loop_isolation(false)]
fn position_u64(v: &Vec<u64>, x: u64) -> (r: Option<usize>)
    ensures
        match r {
            Some(p) => p < v@.len() && v@[p as int] == x,
            None => !v@.contains(x),
        },
{
    let mut k: usize = 0;
    while k < v.len()
        invariant
            0 <= k <= v@.len(),
            forall|j: int| 0 <= j < k ==> v@[j] != x,
        decreases v@.len() - k,
    {
        if v[k] == x {
            return Some(k);
        }
        k = k + 1;
    }
    None
}

/// Pushing an element that is not yet present keeps a sequence
/// duplicate-free.
proof fn lemma_push_fresh_no_duplicates(s: Seq<u64>, x: u64)
    requires
        s.no_duplicates(),
        !s.contains(x),
    ensures
        s.push(x).no_duplicates(),
{
    let t = s.push(x);
    assert forall|a: int, b: int| 0 <= a < b < t.len() implies t[a] != t[b] by {
        if b == s.len() {
            assert(t[a] == s[a]);
            if s[a] == x {
                assert(s.contains(x));
            }
        } else {
            assert(t[a] == s[a] && t[b] == s[b]);
        }
    }
}

/// Removing the one occurrence of `x` from a duplicate-free sequence leaves
/// exactly the other elements.
proof fn lemma_remove_at_unique(s: Seq<u64>, p: int, x: u64)
    requires
        s.no_duplicates(),
        0 <= p < s.len(),
        s[p] == x,
    ensures
        s.remove(p).no_duplicates(),
        forall|y: u64| #[trigger] s.remove(p).contains(y) <==> (s.contains(y) && y != x),
{
    let t = s.remove(p);
    assert forall|a: int, b: int| 0 <= a < b < t.len() implies t[a] != t[b] by {
        let a0 = if a < p {
            a
        } else {
            a + 1
        };
        let b0 = if b < p {
            b
        } else {
            b + 1
        };
        assert(t[a] == s[a0]);
        assert(t[b] == s[b0]);
    }
    assert forall|y: u64| #[trigger] t.contains(y) == (s.contains(y) && y != x) by {
        if t.contains(y) {
            let a = choose|a: int| 0 <= a < t.len() && t[a] == y;
            let a0 = if a < p {
                a
            } else {
                a + 1
            };
            assert(t[a] == s[a0]);
            assert(s.contains(y));
            if y == x {
                if a0 < p {
                    assert(s[a0] != s[p]);
                } else {
                    assert(s[p] != s[a0]);
                }
            }
        }
        if s.contains(y) && y != x {
            let a0 = choose|a0: int| 0 <= a0 < s.len() && s[a0] == y;
            assert(a0 != p);
            let a = if a0 < p {
                a0
            } else {
                a0 - 1
            };
            assert(t[a] == s[a0]);
            assert(t.contains(y));
        }
    }
}

} // verus!
