use vstd::prelude::*;

use crate::chunk::Chunk;
use crate::manager::ChunkManager;

verus! {

/// Handle of one scene entity, as a plain 64-bit id. The program around the
/// library owns the real scene objects; the library only tracks which ids it
/// handed out and in what state each one is.
#[derive(Clone, Copy, Debug, PartialEq, Eq, Hash, Structural)]
pub struct Entity {
    pub id: u64,
}

/// The mutually exclusive lifecycle tag of a chunk entity. An entity holds
/// exactly one of these at a time, by construction.
#[derive(Clone, Copy, Debug, PartialEq, Eq, Structural)]
pub enum ChunkState {
    /// Generation is in flight for this chunk.
    Loading,
    /// Geometry is committed; the chunk is visible and simulated.
    Active,
    /// Geometry is committed but the chunk fell outside the desired set:
    /// hidden and excluded from simulation, never regenerated.
    Dormant,
}

/// One chunk entity: its handle, the tile it stands for, and its state.
#[derive(Clone, Copy, Debug, PartialEq, Eq, Structural)]
pub struct ChunkSlot {
    pub entity: Entity,
    pub chunk: Chunk,
    pub state: ChunkState,
}

/// How many of the slots are in the `Loading` state.
pub open spec fn loading_count(s: Seq<ChunkSlot>) -> int
    decreases s.len(),
{
    if s.len() == 0 {
        0
    } else {
        loading_count(s.drop_last()) + if s.last().state is Loading {
            1int
        } else {
            0int
        }
    }
}

/// A sequence with `Loading` states only where another of the same length
/// has them counts no more `Loading` slots than the other.
pub proof fn lemma_loading_count_le(a: Seq<ChunkSlot>, b: Seq<ChunkSlot>)
    requires
        a.len() == b.len(),
        forall|i: int| 0 <= i < a.len() && (#[trigger] a[i]).state is Loading ==> b[i].state is Loading,
    ensures
        loading_count(a) <= loading_count(b),
    decreases a.len(),
{
    if a.len() > 0 {
        lemma_loading_count_le(a.drop_last(), b.drop_last());
    }
}

/// An index of the chunk entity with handle `e`.
pub open spec fn entity_index(s: Seq<ChunkSlot>, e: Entity) -> int {
    choose|i: int| 0 <= i < s.len() && (#[trigger] s[i]).entity == e
}

/// The terrain root. It owns the chunk entities as its children and hands
/// out fresh entity handles; ids are never reused.
pub struct Terrain {
    next_entity: u64,
    slots: Vec<ChunkSlot>,
}

impl Terrain {
    /// The chunk entities, in the order they were spawned.
    pub closed spec fn chunks(self) -> Seq<ChunkSlot> {
        self.slots@
    }

    /// The id the next spawned entity will get.
    pub closed spec fn next_id(self) -> u64 {
        self.next_entity
    }

    /// Whether some chunk entity stands for the tile `c`.
    pub open spec fn has_chunk(self, c: Chunk) -> bool {
        exists|i: int| 0 <= i < self.chunks().len() && (#[trigger] self.chunks()[i]).chunk == c
    }

    /// Whether the handle `e` belongs to some chunk entity.
    pub open spec fn contains_entity(self, e: Entity) -> bool {
        exists|i: int| 0 <= i < self.chunks().len() && (#[trigger] self.chunks()[i]).entity == e
    }

    /// Every handle was allocated below the counter, no handle repeats, and
    /// no tile has more than one entity.
    pub open spec fn inv(self) -> bool {
        &&& forall|i: int|
            0 <= i < self.chunks().len() ==> (#[trigger] self.chunks()[i]).entity.id
                < self.next_id()
        &&& forall|i: int, j: int|
            0 <= i < j < self.chunks().len() ==> (#[trigger] self.chunks()[i]).entity != (
            #[trigger] self.chunks()[j]).entity
        &&& forall|i: int, j: int|
            0 <= i < j < self.chunks().len() ==> (#[trigger] self.chunks()[i]).chunk != (
            #[trigger] self.chunks()[j]).chunk
    }

    /// How many generation tasks are in flight right now.
    pub fn count_loading(&self) -> (n: usize)
        ensures
            n == loading_count(self.chunks()),
    {
        let mut n: usize = 0;
        let mut i: usize = 0;
        while i < self.slots.len()
            invariant
                0 <= i <= self.slots.len(),
                n <= i,
                n == loading_count(self.slots@.subrange(0, i as int)),
            decreases self.slots.len() - i,
        {
            proof {
                assert(self.slots@.subrange(0, i + 1).drop_last() =~= self.slots@.subrange(
                    0,
                    i as int,
                ));
                assert(self.slots@.subrange(0, i + 1).last() == self.slots@[i as int]);
            }
            if matches!(self.slots[i].state, ChunkState::Loading) {
                n = n + 1;
            }
            i = i + 1;
        }
        proof {
            assert(self.slots@.subrange(0, self.slots@.len() as int) =~= self.slots@);
        }
        n
    }

    /// The lifecycle state of the entity `e`, if the terrain owns it.
    pub fn state_of(&self, e: Entity) -> (r: Option<ChunkState>)
        requires
            self.inv(),
        ensures
            r == if self.contains_entity(e) {
                Some(self.chunks()[entity_index(self.chunks(), e)].state)
            } else {
                None::<ChunkState>
            },
    {
        let mut i: usize = 0;
        while i < self.slots.len()
            invariant
                self.inv(),
                0 <= i <= self.slots.len(),
                forall|j: int| 0 <= j < i ==> (#[trigger] self.slots@[j]).entity != e,
            decreases self.slots.len() - i,
        {
            let slot = self.slots[i];
            if slot.entity.id == e.id {
                proof {
                    assert(self.chunks()[i as int].entity == e);
                    let k = entity_index(self.chunks(), e);
                    assert(0 <= k < self.chunks().len() && self.chunks()[k].entity == e);
                    assert(k == i as int);
                }
                return Some(slot.state);
            }
            i = i + 1;
        }
        None
    }

    /// Creates the entity for a tile that has none yet. The new entity
    /// starts in `Loading`; generation for it is handed to the task pool by
    /// the caller.
    pub fn spawn_chunk_entity(&mut self, chunk: Chunk) -> (e: Entity)
        requires
            old(self).inv(),
            !old(self).has_chunk(chunk),
            old(self).next_id() < u64::MAX,
        ensures
            final(self).inv(),
            e.id == old(self).next_id(),
            !old(self).contains_entity(e),
            final(self).chunks() == old(self).chunks().push(
                ChunkSlot { entity: e, chunk, state: ChunkState::Loading },
            ),
            final(self).next_id() == old(self).next_id() + 1,
    {
        let e = Entity { id: self.next_entity };
        self.next_entity = self.next_entity + 1;
        self.slots.push(ChunkSlot { entity: e, chunk, state: ChunkState::Loading });
        e
    }

    /// Drops every loading entity named in `stale`: its generation is
    /// abandoned. An abandoned task still runs to completion on its
    /// worker thread; its entity is gone, so the result is discarded when
    /// it arrives. Returns the tiles whose entities were dropped, so the
    /// caller can unregister them.
    pub fn abandon_loading(&mut self, stale: &Vec<Entity>) -> (removed: Vec<Chunk>)
        requires
            old(self).inv(),
        ensures
            final(self).inv(),
            final(self).next_id() == old(self).next_id(),
            final(self).chunks() == old(self).chunks().filter(
                (|s: ChunkSlot| keep_slot(s, stale@)),
            ),
            forall|c: Chunk| #[trigger]
                removed@.contains(c) <==> abandoned_chunk(*old(self), stale@, c),
    {
        let ghost pred = |s: ChunkSlot| keep_slot(s, stale@);
        let mut kept: Vec<ChunkSlot> = Vec::new();
        let mut removed: Vec<Chunk> = Vec::new();
        let mut i: usize = 0;
        proof {
            reveal(Seq::filter);
            assert(self.slots@.subrange(0, 0).filter(pred) =~= Seq::<ChunkSlot>::empty());
        }
        while i < self.slots.len()
            invariant
                0 <= i <= self.slots@.len(),
                self.slots@ == old(self).slots@,
                self.next_entity == old(self).next_entity,
                kept@ == self.slots@.subrange(0, i as int).filter(pred),
                pred == (|s: ChunkSlot| keep_slot(s, stale@)),
                forall|c: Chunk| #[trigger]
                    removed@.contains(c) <==> exists|j: int|
                        0 <= j < i && !keep_slot(#[trigger] self.slots@[j], stale@)
                            && self.slots@[j].chunk == c,
            decreases self.slots@.len() - i,
        {
            let s = self.slots[i];
            let ghost pre_removed = removed@;
            proof {
                reveal(Seq::filter);
                assert(self.slots@.subrange(0, i + 1).drop_last() =~= self.slots@.subrange(
                    0,
                    i as int,
                ));
                assert(self.slots@.subrange(0, i + 1).last() == self.slots@[i as int]);
            }
            if matches!(s.state, ChunkState::Loading) && entity_listed(stale, s.entity) {
                removed.push(s.chunk);
                proof {
                    assert(removed@.drop_last() =~= pre_removed);
                    assert forall|c: Chunk| #[trigger]
                        removed@.contains(c) <==> exists|j: int|
                            0 <= j < i + 1 && !keep_slot(#[trigger] self.slots@[j], stale@)
                                && self.slots@[j].chunk == c by {
                        if removed@.contains(c) {
                            let w = choose|w: int|
                                0 <= w < removed@.len() && (#[trigger] removed@[w]) == c;
                            if w < removed@.len() - 1 {
                                assert(pre_removed[w] == c);
                                assert(pre_removed.contains(c));
                            } else {
                                assert(!keep_slot(self.slots@[i as int], stale@));
                            }
                        }
                        if exists|j: int|
                            0 <= j < i + 1 && !keep_slot(#[trigger] self.slots@[j], stale@)
                                && self.slots@[j].chunk == c {
                            let j = choose|j: int|
                                0 <= j < i + 1 && !keep_slot(#[trigger] self.slots@[j], stale@)
                                    && self.slots@[j].chunk == c;
                            if j < i {
                                assert(pre_removed.contains(c));
                                let w = choose|w: int|
                                    0 <= w < pre_removed.len() && (#[trigger] pre_removed[w]) == c;
                                assert(removed@[w] == c);
                            } else {
                                assert(removed@[removed@.len() - 1] == c);
                            }
                        }
                    }
                }
            } else {
                kept.push(s);
                proof {
                    assert forall|c: Chunk| #[trigger]
                        removed@.contains(c) <==> exists|j: int|
                            0 <= j < i + 1 && !keep_slot(#[trigger] self.slots@[j], stale@)
                                && self.slots@[j].chunk == c by {
                        if exists|j: int|
                            0 <= j < i + 1 && !keep_slot(#[trigger] self.slots@[j], stale@)
                                && self.slots@[j].chunk == c {
                            let j = choose|j: int|
                                0 <= j < i + 1 && !keep_slot(#[trigger] self.slots@[j], stale@)
                                    && self.slots@[j].chunk == c;
                            assert(j < i);
                        }
                    }
                }
            }
            i = i + 1;
        }
        proof {
            assert(self.slots@.subrange(0, self.slots@.len() as int) =~= self.slots@);
            lemma_filter_keeps_slots(self.slots@, pred);
            assert forall|m: int| 0 <= m < kept@.len() implies (#[trigger] kept@[m]).entity.id
                < self.next_entity by {
                assert(self.slots@.contains(kept@[m]));
                let w = choose|w: int|
                    0 <= w < self.slots@.len() && (#[trigger] self.slots@[w]) == kept@[m];
            }
        }
        self.slots = kept;
        removed
    }
}

impl Default for Terrain {
    /// A terrain root with no chunk entities.
    fn default() -> (t: Terrain)
        ensures
            t.inv(),
            t.chunks() == Seq::<ChunkSlot>::empty(),
            t.next_id() == 0,
    {
        let t = Terrain { next_entity: 0, slots: Vec::new() };
        proof {
            assert(t.slots@ =~= Seq::<ChunkSlot>::empty());
        }
        t
    }
}

/// Records that the generated geometry for `entity` arrived: the entity
/// leaves `Loading` and becomes `Active`. An entity in any other state, or
/// one the terrain does not know, is left as it is.
pub fn recieve(terrain: &mut Terrain, entity: Entity)
    ensures
        final(terrain).chunks().len() == old(terrain).chunks().len(),
        forall|i: int|
            0 <= i < final(terrain).chunks().len() ==> (#[trigger] final(terrain).chunks()[i]) == (
            ChunkSlot {
                state: if old(terrain).chunks()[i].entity == entity && old(terrain).chunks()[i].state
                    is Loading {
                    ChunkState::Active
                } else {
                    old(terrain).chunks()[i].state
                },
                ..old(terrain).chunks()[i]
            }),
        old(terrain).inv() ==> final(terrain).inv(),
        final(terrain).next_id() == old(terrain).next_id(),
{
    let mut i: usize = 0;
    while i < terrain.slots.len()
        invariant
            0 <= i <= terrain.slots.len(),
            terrain.slots@.len() == old(terrain).slots@.len(),
            terrain.next_entity == old(terrain).next_entity,
            forall|j: int|
                0 <= j < i ==> (#[trigger] terrain.slots@[j]) == (ChunkSlot {
                    state: if old(terrain).slots@[j].entity == entity && old(
                        terrain,
                    ).slots@[j].state is Loading {
                        ChunkState::Active
                    } else {
                        old(terrain).slots@[j].state
                    },
                    ..old(terrain).slots@[j]
                }),
            forall|j: int| i <= j < terrain.slots@.len() ==> terrain.slots@[j] == old(
                terrain,
            ).slots@[j],
        decreases terrain.slots.len() - i,
    {
        let slot = terrain.slots[i];
        if slot.entity.id == entity.id && matches!(slot.state, ChunkState::Loading) {
            terrain.slots.set(i, ChunkSlot { state: ChunkState::Active, ..slot });
        }
        i = i + 1;
    }
}

/// Every chunk entity in the scene is registered in the manager; together
/// with the registry's invariant this is what keeps any tile from getting
/// a second entity.
pub open spec fn scene_registered(m: ChunkManager, t: Terrain) -> bool {
    forall|i: int|
        0 <= i < t.chunks().len() ==> m.placed().dom().contains(
            (#[trigger] t.chunks()[i]).chunk,
        )
}

/// The slot survives an abandon pass over the stale entities `stale`:
/// only a loading slot named there is dropped.
pub open spec fn keep_slot(slot: ChunkSlot, stale: Seq<Entity>) -> bool {
    !(slot.state is Loading && stale.contains(slot.entity))
}

/// Some loading slot named in `stale` stands for the tile `c`.
pub open spec fn abandoned_chunk(t: Terrain, stale: Seq<Entity>, c: Chunk) -> bool {
    exists|i: int|
        0 <= i < t.chunks().len() && (#[trigger] t.chunks()[i]).chunk == c && !keep_slot(
            t.chunks()[i],
            stale,
        )
}

/// Filtering keeps only slots of the original, so pairwise-distinct
/// handles and tiles stay pairwise distinct.
proof fn lemma_filter_keeps_slots(s: Seq<ChunkSlot>, pred: spec_fn(ChunkSlot) -> bool)
    ensures
        forall|m: int| 0 <= m < s.filter(pred).len() ==> s.contains(#[trigger] s.filter(pred)[m]),
        (forall|i: int, j: int|
            0 <= i < j < s.len() ==> (#[trigger] s[i]).entity != (#[trigger] s[j]).entity) ==> (
        forall|i: int, j: int|
            0 <= i < j < s.filter(pred).len() ==> (#[trigger] s.filter(pred)[i]).entity != (
            #[trigger] s.filter(pred)[j]).entity),
        (forall|i: int, j: int|
            0 <= i < j < s.len() ==> (#[trigger] s[i]).chunk != (#[trigger] s[j]).chunk) ==> (
        forall|i: int, j: int|
            0 <= i < j < s.filter(pred).len() ==> (#[trigger] s.filter(pred)[i]).chunk != (
            #[trigger] s.filter(pred)[j]).chunk),
    decreases s.len(),
{
    reveal(Seq::filter);
    if s.len() > 0 {
        lemma_filter_keeps_slots(s.drop_last(), pred);
        let out = s.filter(pred);
        let sub = s.drop_last().filter(pred);
        assert forall|m: int| 0 <= m < out.len() implies s.contains(#[trigger] out[m]) by {
            if m < sub.len() {
                assert(sub[m] == out[m]);
                assert(s.drop_last().contains(sub[m]));
                let w = choose|w: int|
                    0 <= w < s.drop_last().len() && (#[trigger] s.drop_last()[w]) == sub[m];
                assert(s[w] == out[m]);
            } else {
                assert(s[s.len() - 1] == out[m]);
            }
        }
        if forall|i: int, j: int|
            0 <= i < j < s.len() ==> (#[trigger] s[i]).entity != (#[trigger] s[j]).entity {
            assert forall|i: int, j: int| 0 <= i < j < out.len() implies (
            #[trigger] out[i]).entity != (#[trigger] out[j]).entity by {
                if j == out.len() - 1 && pred(s.last()) && out.len() == sub.len() + 1 {
                    assert(s.drop_last().contains(sub[i]));
                    let w = choose|w: int|
                        0 <= w < s.drop_last().len() && (#[trigger] s.drop_last()[w]) == sub[i];
                    assert(s[w].entity != s[s.len() - 1].entity);
                } else {
                    assert(out[i] == sub[i] && out[j] == sub[j]);
                }
            }
        }
        if forall|i: int, j: int|
            0 <= i < j < s.len() ==> (#[trigger] s[i]).chunk != (#[trigger] s[j]).chunk {
            assert forall|i: int, j: int| 0 <= i < j < out.len() implies (#[trigger] out[i]).chunk
                != (#[trigger] out[j]).chunk by {
                if j == out.len() - 1 && pred(s.last()) && out.len() == sub.len() + 1 {
                    assert(s.drop_last().contains(sub[i]));
                    let w = choose|w: int|
                        0 <= w < s.drop_last().len() && (#[trigger] s.drop_last()[w]) == sub[i];
                    assert(s[w].chunk != s[s.len() - 1].chunk);
                } else {
                    assert(out[i] == sub[i] && out[j] == sub[j]);
                }
            }
        }
    }
}

/// Whether the handle `e` stands in the list.
fn entity_listed(v: &Vec<Entity>, e: Entity) -> (r: bool)
    ensures
        r == v@.contains(e),
{
    let mut i: usize = 0;
    while i < v.len()
        invariant
            0 <= i <= v.len(),
            forall|j: int| 0 <= j < i ==> v@[j] != e,
        decreases v.len() - i,
    {
        if v[i].id == e.id {
            assert(v@[i as int] == e);
            return true;
        }
        i = i + 1;
    }
    false
}

/// The state a slot ends in once every task whose entity stands in `done`
/// has reported completion: a loading slot among them becomes `Active`.
pub open spec fn state_after_completion(slot: ChunkSlot, done: Seq<Entity>) -> ChunkState {
    if slot.state is Loading && done.contains(slot.entity) {
        ChunkState::Active
    } else {
        slot.state
    }
}

/// Commits every chunk whose generation task has completed: each entity in
/// `completed` that is still `Loading` becomes `Active`. The caller polls
/// the task pool and reports the entities whose tasks finished; geometry,
/// material and the world-space transform of the committed chunk are
/// attached on the caller's side.
pub fn handle_spawning_chunk(terrain: &mut Terrain, completed: &Vec<Entity>)
    ensures
        final(terrain).chunks().len() == old(terrain).chunks().len(),
        forall|i: int|
            0 <= i < final(terrain).chunks().len() ==> (#[trigger] final(terrain).chunks()[i]) == (
            ChunkSlot {
                state: state_after_completion(old(terrain).chunks()[i], completed@),
                ..old(terrain).chunks()[i]
            }),
        old(terrain).inv() ==> final(terrain).inv(),
        final(terrain).next_id() == old(terrain).next_id(),
{
    let mut k: usize = 0;
    while k < completed.len()
        invariant
            0 <= k <= completed.len(),
            terrain.chunks().len() == old(terrain).chunks().len(),
            forall|i: int|
                0 <= i < terrain.chunks().len() ==> (#[trigger] terrain.chunks()[i]) == (ChunkSlot {
                    state: state_after_completion(
                        old(terrain).chunks()[i],
                        completed@.subrange(0, k as int),
                    ),
                    ..old(terrain).chunks()[i]
                }),
            old(terrain).inv() ==> terrain.inv(),
            terrain.next_id() == old(terrain).next_id(),
        decreases completed.len() - k,
    {
        let ghost pre = terrain.chunks();
        recieve(terrain, completed[k]);
        proof {
            let done_now = completed@.subrange(0, k + 1);
            let done_before = completed@.subrange(0, k as int);
            assert forall|i: int| 0 <= i < terrain.chunks().len() implies (
            #[trigger] terrain.chunks()[i]) == (ChunkSlot {
                state: state_after_completion(old(terrain).chunks()[i], done_now),
                ..old(terrain).chunks()[i]
            }) by {
                let s0 = old(terrain).chunks()[i];
                assert(terrain.chunks()[i] == (ChunkSlot {
                    state: if pre[i].entity == completed@[k as int] && pre[i].state is Loading {
                        ChunkState::Active
                    } else {
                        pre[i].state
                    },
                    ..pre[i]
                }));
                if done_now.contains(s0.entity) {
                    let w = choose|w: int| 0 <= w < done_now.len() && done_now[w] == s0.entity;
                    if w < k {
                        assert(done_before[w] == s0.entity);
                        assert(done_before.contains(s0.entity));
                    } else {
                        assert(completed@[k as int] == s0.entity);
                    }
                }
                if done_before.contains(s0.entity) {
                    let w = choose|w: int|
                        0 <= w < done_before.len() && done_before[w] == s0.entity;
                    assert(done_now[w] == s0.entity);
                    assert(done_now.contains(s0.entity));
                }
                if completed@[k as int] == s0.entity {
                    assert(done_now[k as int] == s0.entity);
                    assert(done_now.contains(s0.entity));
                }
            }
        }
        k = k + 1;
    }
    proof {
        assert(completed@.subrange(0, completed@.len() as int) =~= completed@);
    }
}

/// Sends every active chunk that is no longer desired to `Dormant`: its
/// geometry stays, only presentation and simulation participation change.
pub fn make_chunks_dormant(manager: &ChunkManager, terrain: &mut Terrain)
    ensures
        final(terrain).chunks().len() == old(terrain).chunks().len(),
        forall|i: int|
            0 <= i < final(terrain).chunks().len() ==> (#[trigger] final(terrain).chunks()[i]) == (
            ChunkSlot {
                state: if old(terrain).chunks()[i].state is Active && !manager.desired().contains(
                    old(terrain).chunks()[i].chunk,
                ) {
                    ChunkState::Dormant
                } else {
                    old(terrain).chunks()[i].state
                },
                ..old(terrain).chunks()[i]
            }),
        old(terrain).inv() ==> final(terrain).inv(),
        final(terrain).next_id() == old(terrain).next_id(),
{
    let mut i: usize = 0;
    while i < terrain.slots.len()
        invariant
            0 <= i <= terrain.slots.len(),
            terrain.slots@.len() == old(terrain).slots@.len(),
            terrain.next_entity == old(terrain).next_entity,
            forall|j: int|
                0 <= j < i ==> (#[trigger] terrain.slots@[j]) == (ChunkSlot {
                    state: if old(terrain).slots@[j].state is Active && !manager.desired().contains(
                        old(terrain).slots@[j].chunk,
                    ) {
                        ChunkState::Dormant
                    } else {
                        old(terrain).slots@[j].state
                    },
                    ..old(terrain).slots@[j]
                }),
            forall|j: int| i <= j < terrain.slots@.len() ==> terrain.slots@[j] == old(
                terrain,
            ).slots@[j],
        decreases terrain.slots.len() - i,
    {
        let slot = terrain.slots[i];
        if matches!(slot.state, ChunkState::Active) && !manager.should_exist(&slot.chunk) {
            terrain.slots.set(i, ChunkSlot { state: ChunkState::Dormant, ..slot });
        }
        i = i + 1;
    }
}

/// Wakes every dormant chunk that is desired again: `Dormant` becomes
/// `Active` and the chunk is shown and simulated once more. A chunk is
/// generated at most once in its lifetime; waking reuses the geometry it
/// already has.
pub fn make_dormant_chunks_active(manager: &ChunkManager, terrain: &mut Terrain)
    ensures
        final(terrain).chunks().len() == old(terrain).chunks().len(),
        forall|i: int|
            0 <= i < final(terrain).chunks().len() ==> (#[trigger] final(terrain).chunks()[i]) == (
            ChunkSlot {
                state: if old(terrain).chunks()[i].state is Dormant && manager.desired().contains(
                    old(terrain).chunks()[i].chunk,
                ) {
                    ChunkState::Active
                } else {
                    old(terrain).chunks()[i].state
                },
                ..old(terrain).chunks()[i]
            }),
        old(terrain).inv() ==> final(terrain).inv(),
        final(terrain).next_id() == old(terrain).next_id(),
{
    let mut i: usize = 0;
    while i < terrain.slots.len()
        invariant
            0 <= i <= terrain.slots.len(),
            terrain.slots@.len() == old(terrain).slots@.len(),
            terrain.next_entity == old(terrain).next_entity,
            forall|j: int|
                0 <= j < i ==> (#[trigger] terrain.slots@[j]) == (ChunkSlot {
                    state: if old(terrain).slots@[j].state is Dormant && manager.desired().contains(
                        old(terrain).slots@[j].chunk,
                    ) {
                        ChunkState::Active
                    } else {
                        old(terrain).slots@[j].state
                    },
                    ..old(terrain).slots@[j]
                }),
            forall|j: int| i <= j < terrain.slots@.len() ==> terrain.slots@[j] == old(
                terrain,
            ).slots@[j],
        decreases terrain.slots.len() - i,
    {
        let slot = terrain.slots[i];
        if matches!(slot.state, ChunkState::Dormant) && manager.should_exist(&slot.chunk) {
            terrain.slots.set(i, ChunkSlot { state: ChunkState::Active, ..slot });
        }
        i = i + 1;
    }
}

/// Abandons generation work that has run too long: the caller applies its
/// age threshold (a tunable, not the library's) and names the stale
/// in-flight entities; each one is despawned and its tile unregistered,
/// so the tile is a candidate again and a later tick schedules it anew.
/// Without this a task that never completes would hold its tile in
/// `Loading` forever and permanently consume one slot of the concurrency
/// bound.
pub fn abandon_stale_chunks(manager: &mut ChunkManager, terrain: &mut Terrain, stale: &Vec<Entity>)
    requires
        old(manager).inv(),
        old(terrain).inv(),
    ensures
        final(manager).inv(),
        final(terrain).inv(),
        final(manager).desired() == old(manager).desired(),
        final(terrain).next_id() == old(terrain).next_id(),
        final(terrain).chunks() == old(terrain).chunks().filter(
            (|s: ChunkSlot| keep_slot(s, stale@)),
        ),
        forall|c: Chunk| #[trigger]
            final(manager).placed().dom().contains(c) <==> old(manager).placed().dom().contains(c)
                && !abandoned_chunk(*old(terrain), stale@, c),
        forall|c: Chunk|
            final(manager).placed().dom().contains(c) ==> final(manager).placed()[c] == old(
                manager,
            ).placed()[c],
        scene_registered(*old(manager), *old(terrain)) ==> scene_registered(
            *final(manager),
            *final(terrain),
        ),
{
    let removed = terrain.abandon_loading(stale);
    let mut k: usize = 0;
    while k < removed.len()
        invariant
            0 <= k <= removed@.len(),
            manager.inv(),
            manager.desired() == old(manager).desired(),
            forall|c: Chunk| #[trigger]
                manager.placed().dom().contains(c) <==> old(manager).placed().dom().contains(c)
                    && !removed@.subrange(0, k as int).contains(c),
            forall|c: Chunk|
                manager.placed().dom().contains(c) ==> manager.placed()[c] == old(
                    manager,
                ).placed()[c],
        decreases removed@.len() - k,
    {
        let c = removed[k];
        manager._unregister_chunk(&c);
        proof {
            assert forall|c2: Chunk| #[trigger]
                removed@.subrange(0, k + 1).contains(c2) <==> removed@.subrange(
                    0,
                    k as int,
                ).contains(c2) || c2 == removed@[k as int] by {
                if removed@.subrange(0, k + 1).contains(c2) {
                    let w = choose|w: int|
                        0 <= w < k + 1 && (#[trigger] removed@.subrange(0, k + 1)[w]) == c2;
                    if w < k {
                        assert(removed@.subrange(0, k as int)[w] == c2);
                    }
                }
                if removed@.subrange(0, k as int).contains(c2) {
                    let w = choose|w: int|
                        0 <= w < k && (#[trigger] removed@.subrange(0, k as int)[w]) == c2;
                    assert(removed@.subrange(0, k + 1)[w] == c2);
                }
                if c2 == removed@[k as int] {
                    assert(removed@.subrange(0, k + 1)[k as int] == c2);
                }
            }
        }
        k = k + 1;
    }
    proof {
        assert(removed@.subrange(0, removed@.len() as int) =~= removed@);
        if scene_registered(*old(manager), *old(terrain)) {
            broadcast use vstd::seq_lib::group_filter_ensures;

            let pred = |s: ChunkSlot| keep_slot(s, stale@);
            lemma_filter_keeps_slots(old(terrain).chunks(), pred);
            assert forall|i: int| 0 <= i < terrain.chunks().len() implies
                manager.placed().dom().contains((#[trigger] terrain.chunks()[i]).chunk) by {
                let slot = terrain.chunks()[i];
                assert(old(terrain).chunks().contains(slot));
                let w = choose|w: int|
                    0 <= w < old(terrain).chunks().len() && (#[trigger] old(
                        terrain,
                    ).chunks()[w]) == slot;
                assert(old(manager).placed().dom().contains(slot.chunk));
                assert(pred(terrain.chunks()[i]));
                if abandoned_chunk(*old(terrain), stale@, slot.chunk) {
                    let j = choose|j: int|
                        0 <= j < old(terrain).chunks().len() && (#[trigger] old(
                            terrain,
                        ).chunks()[j]).chunk == slot.chunk && !keep_slot(
                            old(terrain).chunks()[j],
                            stale@,
                        );
                    assert(j == w);
                }
            }
        }
    }
}

} // verus!
