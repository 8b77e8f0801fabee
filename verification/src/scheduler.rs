use vstd::prelude::*;

use crate::admission::{spawn_budget, spawn_with_limits};
use crate::area::{add_desired_chunks, in_circle, AreaManaged, Observer};
use crate::chunk::Chunk;
use crate::lifecycle::{
    handle_spawning_chunk, lemma_loading_count_le, loading_count, make_chunks_dormant,
    make_dormant_chunks_active, scene_registered, ChunkSlot, ChunkState, Entity, Terrain,
};
use crate::limiter::{adjust_limiter, adjusted, ChunkSpawnLimiter, MAX_SPAWNS_PER_FRAME};
use crate::manager::ChunkManager;

verus! {

/// The state a pre-existing chunk entity must be in when a tick ends: a
/// loading chunk commits once its task is reported complete, and a
/// committed chunk is active exactly when its tile is desired.
pub open spec fn state_after_tick(
    slot: ChunkSlot,
    desired: Set<Chunk>,
    completed: Seq<Entity>,
) -> ChunkState {
    match slot.state {
        ChunkState::Loading => if completed.contains(slot.entity) {
            ChunkState::Active
        } else {
            ChunkState::Loading
        },
        _ => if desired.contains(slot.chunk) {
            ChunkState::Active
        } else {
            ChunkState::Dormant
        },
    }
}

/// One scheduling tick, in the order the systems are chained: the
/// admission budget is recalibrated from the last frame's duration, the
/// area policy refreshes the desired set from the observer's tile, a
/// bounded priority-ordered batch of generation work is launched, chunks
/// that left the desired set go dormant, dormant chunks that are desired
/// again wake, and chunks whose generation finished are committed. The
/// caller performs the returned generation tasks off the main thread and
/// reports the entities whose tasks completed to a later tick.
pub fn tick(
    manager: &mut ChunkManager,
    limiter: &mut ChunkSpawnLimiter,
    terrain: &mut Terrain,
    observer: &Observer,
    area: &AreaManaged,
    delta_micros: u32,
    completed: &Vec<Entity>,
) -> (launched: Vec<(Entity, Chunk)>)
    requires
        old(manager).inv(),
        old(terrain).inv(),
        old(limiter).inv(),
        scene_registered(*old(manager), *old(terrain)),
        *area is Circle,
        *area matches AreaManaged::Circle(radius) ==> 0 <= radius && i32::MIN + radius
            <= observer.tile.x <= i32::MAX - radius && i32::MIN + radius <= observer.tile.y
            <= i32::MAX - radius,
        old(terrain).next_id() as int + MAX_SPAWNS_PER_FRAME as int <= u64::MAX as int,
    ensures
        final(manager).inv(),
        final(terrain).inv(),
        final(limiter).inv(),
        scene_registered(*final(manager), *final(terrain)),
        // the budget is recalibrated exactly as specified
        *final(limiter) == adjusted(*old(limiter), delta_micros),
        // the desired set grows by exactly the observer's catchment, and
        // once a chunk is desired it stays desired
        *area matches AreaManaged::Circle(radius) ==> forall|c: Chunk|
            final(manager).desired().contains(c) <==> old(manager).desired().contains(c)
                || in_circle(observer.tile, radius as int, c),
        forall|c: Chunk|
            old(manager).desired().contains(c) ==> final(manager).desired().contains(c),
        // registration is extended, never overwritten: every launched chunk
        // was unregistered, and everything registered stays as it was
        forall|c: Chunk|
            old(manager).placed().dom().contains(c) ==> final(manager).placed().dom().contains(c)
                && final(manager).placed()[c] == old(manager).placed()[c],
        forall|k: int|
            0 <= k < launched@.len() ==> !old(manager).placed().dom().contains(
                (#[trigger] launched@[k]).1,
            ) && final(manager).desired().contains(launched@[k].1)
                && final(manager).placed().dom().contains(launched@[k].1)
                && final(manager).placed()[launched@[k].1] == launched@[k].0,
        forall|k1: int, k2: int|
            0 <= k1 < k2 < launched@.len() ==> (#[trigger] launched@[k1]).1 != (
            #[trigger] launched@[k2]).1,
        // every entity handed out this tick is fresh
        forall|k: int|
            0 <= k < launched@.len() ==> (#[trigger] launched@[k]).0.id == old(terrain).next_id()
                + k,
        forall|k: int|
            0 <= k < launched@.len() ==> !old(terrain).contains_entity(
                (#[trigger] launched@[k]).0,
            ),
        // admission respects the recalibrated bounds
        launched@.len() <= final(limiter).max_spawns_per_frame,
        loading_count(old(terrain).chunks()) >= final(limiter).max_concurrent_tasks
            ==> launched@.len() == 0,
        loading_count(old(terrain).chunks()) < final(limiter).max_concurrent_tasks
            ==> loading_count(old(terrain).chunks()) + launched@.len() <= final(
            limiter).max_concurrent_tasks,
        loading_count(final(terrain).chunks()) <= loading_count(old(terrain).chunks())
            + launched@.len(),
        // the batch is launched nearest first
        forall|k1: int, k2: int|
            0 <= k1 <= k2 < launched@.len() ==> (#[trigger] launched@[k1]).1.spec_distance_squared(
                observer.tile,
            ) <= (#[trigger] launched@[k2]).1.spec_distance_squared(observer.tile),
        // every pre-existing entity keeps its tile and takes exactly the
        // transition its conditions allow; new entities load, or commit at
        // once when their task is already reported complete
        final(terrain).chunks().len() == old(terrain).chunks().len() + launched@.len(),
        forall|i: int|
            0 <= i < old(terrain).chunks().len() ==> (#[trigger] final(terrain).chunks()[i]) == (
            ChunkSlot {
                state: state_after_tick(
                    old(terrain).chunks()[i],
                    final(manager).desired(),
                    completed@,
                ),
                ..old(terrain).chunks()[i]
            }),
        forall|k: int|
            0 <= k < launched@.len() ==> final(terrain).chunks()[old(terrain).chunks().len() + k]
                == (ChunkSlot {
                entity: (#[trigger] launched@[k]).0,
                chunk: launched@[k].1,
                state: if completed@.contains(launched@[k].0) {
                    ChunkState::Active
                } else {
                    ChunkState::Loading
                },
            }),
{
    adjust_limiter(limiter, delta_micros);
    add_desired_chunks(manager, observer, area);
    let launched = spawn_with_limits(manager, limiter, terrain, observer);
    let ghost after_spawn = terrain.chunks();
    make_chunks_dormant(manager, terrain);
    let ghost after_dormant = terrain.chunks();
    make_dormant_chunks_active(manager, terrain);
    let ghost after_wake = terrain.chunks();
    handle_spawning_chunk(terrain, completed);
    proof {
        let old_len = old(terrain).chunks().len() as int;
        let des = manager.desired();
        assert forall|i: int| 0 <= i < old_len implies (#[trigger] terrain.chunks()[i]) == (
        ChunkSlot {
            state: state_after_tick(old(terrain).chunks()[i], des, completed@),
            ..old(terrain).chunks()[i]
        }) by {
            assert(after_spawn[i] == old(terrain).chunks()[i]);
            assert(after_dormant[i] == (ChunkSlot {
                state: if after_spawn[i].state is Active && !des.contains(after_spawn[i].chunk) {
                    ChunkState::Dormant
                } else {
                    after_spawn[i].state
                },
                ..after_spawn[i]
            }));
            assert(after_wake[i] == (ChunkSlot {
                state: if after_dormant[i].state is Dormant && des.contains(
                    after_dormant[i].chunk,
                ) {
                    ChunkState::Active
                } else {
                    after_dormant[i].state
                },
                ..after_dormant[i]
            }));
        }
        assert forall|k: int| 0 <= k < launched@.len() implies terrain.chunks()[old_len + k] == (
        ChunkSlot {
            entity: (#[trigger] launched@[k]).0,
            chunk: launched@[k].1,
            state: if completed@.contains(launched@[k].0) {
                ChunkState::Active
            } else {
                ChunkState::Loading
            },
        }) by {
            let i = old_len + k;
            assert(after_spawn[i] == (ChunkSlot {
                entity: launched@[k].0,
                chunk: launched@[k].1,
                state: ChunkState::Loading,
            }));
            assert(manager.placed().dom().contains(launched@[k].1));
            assert(manager.desired().contains(launched@[k].1));
        }
        // committing completed chunks never raises the number in flight
        lemma_loading_count_le(terrain.chunks(), after_wake);
        lemma_loading_count_le(after_wake, after_dormant);
        lemma_loading_count_le(after_dormant, after_spawn);
    }
    launched
}

} // verus!
