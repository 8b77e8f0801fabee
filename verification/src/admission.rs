use vstd::prelude::*;

use crate::area::Observer;
use crate::chunk::Chunk;
use crate::lifecycle::{loading_count, scene_registered, ChunkSlot, ChunkState, Entity, Terrain};
use crate::limiter::ChunkSpawnLimiter;
use crate::manager::ChunkManager;

verus! {

/// A chunk the admission controller may schedule: desired, but with no
/// entity yet.
pub open spec fn candidate(m: ChunkManager, c: Chunk) -> bool {
    m.desired().contains(c) && !m.placed().dom().contains(c)
}

/// The chunks of a launch list, in launch order.
pub open spec fn launched_chunks(s: Seq<(Entity, Chunk)>) -> Seq<Chunk> {
    s.map_values(|p: (Entity, Chunk)| p.1)
}

/// How many tasks may be started this tick: the per-tick budget, but never
/// more than the concurrency bound leaves free.
pub open spec fn spawn_budget(l: ChunkSpawnLimiter, current: int) -> int {
    if l.max_spawns_per_frame as int <= l.max_concurrent_tasks as int - current {
        l.max_spawns_per_frame as int
    } else {
        l.max_concurrent_tasks as int - current
    }
}

/// No two entries carry the same chunk.
pub open spec fn distinct_chunks(s: Seq<(Chunk, i128)>) -> bool {
    forall|k1: int, k2: int|
        0 <= k1 < k2 < s.len() ==> (#[trigger] s[k1]).0 != (#[trigger] s[k2]).0
}

/// Ascending by the second component.
pub open spec fn sorted_by_key(s: Seq<(Chunk, i128)>) -> bool {
    forall|k1: int, k2: int| 0 <= k1 <= k2 < s.len() ==> (#[trigger] s[k1]).1 <= (#[trigger] s[k2]).1
}

/// A prefix one longer holds one more entry.
proof fn lemma_prefix_contains(s: Seq<(Chunk, i128)>, k: int, p: (Chunk, i128))
    requires
        0 <= k < s.len(),
    ensures
        s.subrange(0, k + 1).contains(p) <==> s.subrange(0, k).contains(p) || p == s[k],
{
    if s.subrange(0, k + 1).contains(p) {
        let w = choose|w: int| 0 <= w < k + 1 && (#[trigger] s.subrange(0, k + 1)[w]) == p;
        if w < k {
            assert(s.subrange(0, k)[w] == p);
        }
    }
    if s.subrange(0, k).contains(p) {
        let w = choose|w: int| 0 <= w < k && (#[trigger] s.subrange(0, k)[w]) == p;
        assert(s.subrange(0, k + 1)[w] == p);
    }
    if p == s[k] {
        assert(s.subrange(0, k + 1)[k] == p);
    }
}

/// Inserting adds exactly the inserted entry to the membership.
proof fn lemma_insert_contains(s: Seq<(Chunk, i128)>, pos: int, x: (Chunk, i128))
    requires
        0 <= pos <= s.len(),
    ensures
        forall|p: (Chunk, i128)| #[trigger]
            s.insert(pos, x).contains(p) <==> s.contains(p) || p == x,
{
    s.insert_ensures(pos, x);
    assert forall|p: (Chunk, i128)| #[trigger]
        s.insert(pos, x).contains(p) <==> s.contains(p) || p == x by {
        if s.insert(pos, x).contains(p) {
            let w = choose|w: int| 0 <= w < s.insert(pos, x).len() && (#[trigger] s.insert(pos, x)[w]) == p;
            if w < pos {
                assert(s[w] == p);
            } else if w > pos {
                assert(s.insert(pos, x)[(w - 1) + 1] == s[w - 1]);
                assert(s[w - 1] == p);
            }
        }
        if s.contains(p) {
            let w = choose|w: int| 0 <= w < s.len() && (#[trigger] s[w]) == p;
            if w < pos {
                assert(s.insert(pos, x)[w] == p);
            } else {
                assert(s.insert(pos, x)[w + 1] == p);
            }
        }
        if p == x {
            assert(s.insert(pos, x)[pos] == p);
        }
    }
}

/// Sorts the candidate list ascending by its key, keeping exactly the same
/// entries; entries with pairwise distinct chunks stay pairwise distinct.
fn sort_candidates(v: &mut Vec<(Chunk, i128)>)
    ensures
        final(v)@.len() == old(v)@.len(),
        forall|p: (Chunk, i128)| #[trigger] final(v)@.contains(p) <==> old(v)@.contains(p),
        sorted_by_key(final(v)@),
        distinct_chunks(old(v)@) ==> distinct_chunks(final(v)@),
{
    let ghost orig = v@;
    let mut out: Vec<(Chunk, i128)> = Vec::new();
    let mut k: usize = 0;
    while k < v.len()
        invariant
            v@ == orig,
            0 <= k <= orig.len(),
            out@.len() == k,
            sorted_by_key(out@),
            forall|p: (Chunk, i128)| #[trigger]
                out@.contains(p) <==> orig.subrange(0, k as int).contains(p),
            distinct_chunks(orig) ==> distinct_chunks(out@),
        decreases v@.len() - k,
    {
        let x = v[k];
        let d = x.1;
        // find the first position whose key exceeds d
        let mut pos: usize = out.len();
        let mut q: usize = 0;
        while q < out.len()
            invariant
                0 <= q <= out@.len(),
                pos == out@.len() || (pos < q && out@[pos as int].1 > d && forall|m: int|
                    0 <= m < pos ==> (#[trigger] out@[m]).1 <= d),
                pos == out@.len() ==> forall|m: int| 0 <= m < q ==> (#[trigger] out@[m]).1 <= d,
            decreases out@.len() - q,
        {
            if pos == out.len() && out[q].1 > d {
                pos = q;
            }
            q = q + 1;
        }
        let ghost pre = out@;
        out.insert(pos, x);
        proof {
            pre.insert_ensures(pos as int, x);
            assert(out@ == pre.insert(pos as int, x));
            lemma_insert_contains(pre, pos as int, x);
            lemma_prefix_contains(orig, k as int, x);
            // sortedness of the extended list
            assert forall|k1: int, k2: int| 0 <= k1 <= k2 < out@.len() implies (
            #[trigger] out@[k1]).1 <= (#[trigger] out@[k2]).1 by {
                let a1 = if k1 < pos {
                    out@[k1] == pre[k1]
                } else if k1 == pos {
                    out@[k1] == x
                } else {
                    out@[k1] == pre[k1 - 1]
                };
                assert(a1);
                let a2 = if k2 < pos {
                    out@[k2] == pre[k2]
                } else if k2 == pos {
                    out@[k2] == x
                } else {
                    out@[k2] == pre[k2 - 1]
                };
                assert(a2);
            }
            // distinctness of the extended list
            if distinct_chunks(orig) {
                assert forall|k1: int, k2: int| 0 <= k1 < k2 < out@.len() implies (
                #[trigger] out@[k1]).0 != (#[trigger] out@[k2]).0 by {
                    if k1 == pos || k2 == pos {
                        let other = if k1 == pos {
                            if k2 < pos {
                                pre[k2]
                            } else {
                                pre[k2 - 1]
                            }
                        } else {
                            if k1 < pos {
                                pre[k1]
                            } else {
                                pre[k1 - 1]
                            }
                        };
                        assert(pre.contains(other));
                        let w = choose|w: int| 0 <= w < k && (#[trigger] orig.subrange(0, k as int)[w]) == other;
                        assert(orig[w] == other);
                        assert(orig[k as int] == x);
                        assert(other.0 != x.0);
                    }
                }
            }
        }
        k = k + 1;
    }
    proof {
        assert(orig.subrange(0, orig.len() as int) =~= orig);
    }
    *v = out;
}

/// Some entry carries the chunk `c`.
spec fn cands_has_chunk(s: Seq<(Chunk, i128)>, c: Chunk) -> bool {
    exists|m: int| 0 <= m < s.len() && (#[trigger] s[m]).0 == c
}

/// Mapping a pushed launch list is pushing the mapped chunk.
proof fn lemma_launched_push(s: Seq<(Entity, Chunk)>, p: (Entity, Chunk))
    ensures
        launched_chunks(s.push(p)) =~= launched_chunks(s).push(p.1),
{
}

/// One scheduling tick of the admission controller. Takes one consistent
/// snapshot of the desired set and the placement map, ranks the desired
/// chunks that have no entity by squared distance from the observer's
/// tile, nearest first, and launches a bounded batch: at most
/// `max_spawns_per_frame` chunks, and never more than
/// `max_concurrent_tasks` tasks in flight at once. Each launched chunk
/// gets a fresh entity in `Loading` state, attached under the terrain
/// root, and is registered before the tick ends, so no later tick can
/// launch it again. When recalibration has pulled the concurrency bound
/// below what is already in flight, nothing new starts until the pool
/// drains back under it. The returned list tells the caller, in priority
/// order, which generation tasks to hand to the task pool.
pub fn spawn_with_limits(
    manager: &mut ChunkManager,
    limiter: &ChunkSpawnLimiter,
    terrain: &mut Terrain,
    observer: &Observer,
) -> (launched: Vec<(Entity, Chunk)>)
    requires
        old(manager).inv(),
        old(terrain).inv(),
        scene_registered(*old(manager), *old(terrain)),
        old(terrain).next_id() as int + limiter.max_spawns_per_frame as int <= u64::MAX as int,
    ensures
        final(manager).inv(),
        final(terrain).inv(),
        scene_registered(*final(manager), *final(terrain)),
        final(manager).desired() == old(manager).desired(),
        // admission respects both bounds
        launched@.len() <= limiter.max_spawns_per_frame,
        loading_count(old(terrain).chunks()) >= limiter.max_concurrent_tasks ==> launched@.len()
            == 0,
        loading_count(final(terrain).chunks()) == loading_count(old(terrain).chunks())
            + launched@.len(),
        loading_count(old(terrain).chunks()) < limiter.max_concurrent_tasks ==> loading_count(
            final(terrain).chunks(),
        ) <= limiter.max_concurrent_tasks,
        // the batch is either the full budget or every candidate there was
        loading_count(old(terrain).chunks()) < limiter.max_concurrent_tasks ==> launched@.len()
            == spawn_budget(*limiter, loading_count(old(terrain).chunks())) || (forall|c: Chunk|
            candidate(*old(manager), c) ==> launched_chunks(launched@).contains(c)),
        // only candidates are launched, each at most once
        forall|k: int| 0 <= k < launched@.len() ==> candidate(
            *old(manager),
            (#[trigger] launched@[k]).1,
        ),
        forall|k1: int, k2: int|
            0 <= k1 < k2 < launched@.len() ==> (#[trigger] launched@[k1]).1 != (
            #[trigger] launched@[k2]).1,
        // every launched chunk gets a fresh entity, never seen before
        forall|k: int|
            0 <= k < launched@.len() ==> (#[trigger] launched@[k]).0.id == old(terrain).next_id()
                + k,
        forall|k: int|
            0 <= k < launched@.len() ==> !old(terrain).contains_entity(
                (#[trigger] launched@[k]).0,
            ),
        final(terrain).next_id() == old(terrain).next_id() + launched@.len(),
        // the scene grows by exactly the launched chunks, in Loading state
        final(terrain).chunks().len() == old(terrain).chunks().len() + launched@.len(),
        forall|i: int|
            0 <= i < old(terrain).chunks().len() ==> final(terrain).chunks()[i] == old(
                terrain,
            ).chunks()[i],
        forall|k: int|
            0 <= k < launched@.len() ==> final(terrain).chunks()[old(terrain).chunks().len() + k]
                == (ChunkSlot {
                entity: (#[trigger] launched@[k]).0,
                chunk: launched@[k].1,
                state: ChunkState::Loading,
            }),
        // registration is extended, never overwritten
        forall|c: Chunk|
            old(manager).placed().dom().contains(c) ==> final(manager).placed().dom().contains(c)
                && final(manager).placed()[c] == old(manager).placed()[c],
        forall|c: Chunk| #[trigger]
            final(manager).placed().dom().contains(c) <==> old(manager).placed().dom().contains(c)
                || launched_chunks(launched@).contains(c),
        forall|k: int|
            0 <= k < launched@.len() ==> final(manager).placed()[(#[trigger] launched@[k]).1]
                == launched@[k].0,
        // nearest first: the batch is ordered by distance, and no candidate
        // left behind is nearer than anything launched
        forall|k1: int, k2: int|
            0 <= k1 <= k2 < launched@.len() ==> (#[trigger] launched@[k1]).1.spec_distance_squared(
                observer.tile,
            ) <= (#[trigger] launched@[k2]).1.spec_distance_squared(observer.tile),
        forall|c: Chunk, k: int|
            #![trigger candidate(*old(manager), c), launched@[k]]
            candidate(*old(manager), c) && !launched_chunks(launched@).contains(c) && 0 <= k
                < launched@.len() ==> launched@[k].1.spec_distance_squared(observer.tile)
                <= c.spec_distance_squared(observer.tile),
{
    let current = terrain.count_loading();
    if current >= limiter.max_concurrent_tasks {
        let launched: Vec<(Entity, Chunk)> = Vec::new();
        return launched;
    }
    // one consistent snapshot of the candidates, with their priorities
    let desired = manager.iter_desired_chunks();
    let mut cands: Vec<(Chunk, i128)> = Vec::new();
    let mut k: usize = 0;
    while k < desired.len()
        invariant
            0 <= k <= desired@.len(),
            manager.inv(),
            manager.desired() == old(manager).desired(),
            manager.placed() == old(manager).placed(),
            terrain == old(terrain),
            desired@.no_duplicates(),
            desired@.to_set() == old(manager).desired(),
            forall|m: int|
                0 <= m < cands@.len() ==> candidate(*old(manager), (#[trigger] cands@[m]).0),
            forall|m: int|
                0 <= m < cands@.len() ==> (#[trigger] cands@[m]).1 == cands@[m].0.spec_distance_squared(
                    observer.tile,
                ),
            forall|m: int|
                0 <= m < cands@.len() ==> desired@.subrange(0, k as int).contains(
                    (#[trigger] cands@[m]).0,
                ),
            forall|c: Chunk|
                #![trigger cands_has_chunk(cands@, c)]
                desired@.subrange(0, k as int).contains(c) && !old(
                    manager,
                ).placed().dom().contains(c) ==> cands_has_chunk(cands@, c),
            distinct_chunks(cands@),
        decreases desired@.len() - k,
    {
        let c = desired[k];
        let ghost pre = cands@;
        if manager.get_entity(&c).is_none() {
            let d = c.distance_squared(&observer.tile);
            cands.push((c, d));
            proof {
                assert(cands@.drop_last() =~= pre);
                assert(desired@.subrange(0, k as int).push(desired@[k as int]) =~= desired@.subrange(
                    0,
                    k + 1,
                ));
                assert(desired@.to_set().contains(c));
                assert(cands@[cands@.len() - 1].0 == c);
                assert forall|m1: int, m2: int| 0 <= m1 < m2 < cands@.len() implies (
                #[trigger] cands@[m1]).0 != (#[trigger] cands@[m2]).0 by {
                    if m2 == cands@.len() - 1 {
                        let w = choose|w: int|
                            0 <= w < k && (#[trigger] desired@.subrange(0, k as int)[w])
                                == cands@[m1].0;
                        assert(desired@[w] == cands@[m1].0);
                        assert(desired@[k as int] == c);
                    }
                }
                assert forall|c2: Chunk|
                    #![trigger cands_has_chunk(cands@, c2)]
                    desired@.subrange(0, k + 1).contains(c2) && !old(
                        manager,
                    ).placed().dom().contains(c2) implies cands_has_chunk(cands@, c2) by {
                    let w = choose|w: int|
                        0 <= w < k + 1 && (#[trigger] desired@.subrange(0, k + 1)[w]) == c2;
                    if w < k {
                        assert(desired@.subrange(0, k as int)[w] == c2);
                        assert(cands_has_chunk(pre, c2));
                        let m = choose|m: int| 0 <= m < pre.len() && (#[trigger] pre[m]).0 == c2;
                        assert(cands@[m].0 == c2);
                    } else {
                        assert(cands@[cands@.len() - 1].0 == c2);
                    }
                }
                assert forall|m: int| 0 <= m < cands@.len() implies desired@.subrange(
                    0,
                    k + 1,
                ).contains((#[trigger] cands@[m]).0) by {
                    if m < cands@.len() - 1 {
                        let w = choose|w: int|
                            0 <= w < k && (#[trigger] desired@.subrange(0, k as int)[w])
                                == cands@[m].0;
                        assert(desired@.subrange(0, k + 1)[w] == cands@[m].0);
                    } else {
                        assert(desired@.subrange(0, k + 1)[k as int] == c);
                    }
                }
            }
        } else {
            proof {
                assert forall|c2: Chunk|
                    #![trigger cands_has_chunk(cands@, c2)]
                    desired@.subrange(0, k + 1).contains(c2) && !old(
                        manager,
                    ).placed().dom().contains(c2) implies cands_has_chunk(cands@, c2) by {
                    let w = choose|w: int|
                        0 <= w < k + 1 && (#[trigger] desired@.subrange(0, k + 1)[w]) == c2;
                    if w < k {
                        assert(desired@.subrange(0, k as int)[w] == c2);
                    } else {
                        assert(desired@[k as int] == c2);
                        assert(desired@.to_set().contains(c2));
                    }
                }
                assert forall|m: int| 0 <= m < cands@.len() implies desired@.subrange(
                    0,
                    k + 1,
                ).contains((#[trigger] cands@[m]).0) by {
                    let w = choose|w: int|
                        0 <= w < k && (#[trigger] desired@.subrange(0, k as int)[w]) == cands@[m].0;
                    assert(desired@.subrange(0, k + 1)[w] == cands@[m].0);
                }
            }
        }
        k = k + 1;
    }
    proof {
        assert(desired@.subrange(0, desired@.len() as int) =~= desired@);
        assert forall|c: Chunk| candidate(*old(manager), c) implies cands_has_chunk(cands@, c) by {
            assert(desired@.to_set().contains(c));
            assert(desired@.contains(c));
        }
    }
    // nearest first
    let ghost unsorted = cands@;
    sort_candidates(&mut cands);
    proof {
        assert forall|c: Chunk| candidate(*old(manager), c) implies cands_has_chunk(cands@, c) by {
            let m = choose|m: int| 0 <= m < unsorted.len() && (#[trigger] unsorted[m]).0 == c;
            assert(unsorted.contains(unsorted[m]));
            assert(cands@.contains(unsorted[m]));
            let w = choose|w: int| 0 <= w < cands@.len() && (#[trigger] cands@[w]) == unsorted[m];
            assert(cands@[w].0 == c);
        }
        assert forall|m: int| 0 <= m < cands@.len() implies candidate(
            *old(manager),
            (#[trigger] cands@[m]).0,
        ) && cands@[m].1 == cands@[m].0.spec_distance_squared(observer.tile) by {
            assert(cands@.contains(cands@[m]));
            let w = choose|w: int| 0 <= w < unsorted.len() && (#[trigger] unsorted[w]) == cands@[m];
        }
    }
    // launch the bounded batch
    let budget: usize = if limiter.max_spawns_per_frame <= limiter.max_concurrent_tasks - current {
        limiter.max_spawns_per_frame
    } else {
        limiter.max_concurrent_tasks - current
    };
    let ghost old_chunks = terrain.chunks();
    let ghost old_next = terrain.next_id();
    let mut launched: Vec<(Entity, Chunk)> = Vec::new();
    let mut n: usize = 0;
    while n < budget && n < cands.len()
        invariant
            0 <= n <= budget,
            n <= cands@.len(),
            launched@.len() == n,
            budget == spawn_budget(*limiter, loading_count(old_chunks)),
            budget <= limiter.max_spawns_per_frame,
            old(terrain).chunks() == old_chunks,
            old(terrain).next_id() == old_next,
            old(terrain).inv(),
            old(manager).inv(),
            old_next as int + budget as int <= u64::MAX as int,
            loading_count(old_chunks) < limiter.max_concurrent_tasks,
            // the candidate snapshot
            sorted_by_key(cands@),
            distinct_chunks(cands@),
            forall|m: int|
                0 <= m < cands@.len() ==> candidate(*old(manager), (#[trigger] cands@[m]).0),
            forall|m: int|
                0 <= m < cands@.len() ==> (#[trigger] cands@[m]).1
                    == cands@[m].0.spec_distance_squared(observer.tile),
            forall|c: Chunk|
                #![trigger candidate(*old(manager), c)]
                candidate(*old(manager), c) ==> cands_has_chunk(cands@, c),
            // what has been launched so far
            forall|m: int| 0 <= m < n ==> (#[trigger] launched@[m]).1 == cands@[m].0,
            forall|m: int| 0 <= m < n ==> (#[trigger] launched@[m]).0.id == old_next + m,
            // the registry
            manager.inv(),
            manager.desired() == old(manager).desired(),
            forall|c: Chunk|
                old(manager).placed().dom().contains(c) ==> manager.placed().dom().contains(c)
                    && manager.placed()[c] == old(manager).placed()[c],
            forall|c: Chunk| #[trigger]
                manager.placed().dom().contains(c) <==> old(manager).placed().dom().contains(c)
                    || launched_chunks(launched@).contains(c),
            forall|m: int|
                0 <= m < n ==> manager.placed()[(#[trigger] launched@[m]).1] == launched@[m].0,
            // the scene
            terrain.inv(),
            scene_registered(*manager, *terrain),
            terrain.chunks().len() == old_chunks.len() + n,
            forall|i: int| 0 <= i < old_chunks.len() ==> terrain.chunks()[i] == old_chunks[i],
            forall|m: int|
                0 <= m < n ==> terrain.chunks()[old_chunks.len() + m] == (ChunkSlot {
                    entity: launched@[m].0,
                    chunk: (#[trigger] launched@[m]).1,
                    state: ChunkState::Loading,
                }),
            terrain.next_id() == old_next + n,
            loading_count(terrain.chunks()) == loading_count(old_chunks) + n,
        decreases budget - n,
    {
        let c = cands[n].0;
        proof {
            assert(candidate(*old(manager), cands@[n as int].0));
            assert(!terrain.has_chunk(c)) by {
                if terrain.has_chunk(c) {
                    let i = choose|i: int|
                        0 <= i < terrain.chunks().len() && (#[trigger] terrain.chunks()[i]).chunk
                            == c;
                    if i < old_chunks.len() {
                        assert(old(terrain).chunks()[i].chunk == c);
                        assert(scene_registered(*old(manager), *old(terrain)));
                        assert(old(manager).placed().dom().contains(c));
                    } else {
                        let m = i - old_chunks.len();
                        assert(launched@[m].1 == cands@[m].0);
                        assert(cands@[m].0 != cands@[n as int].0);
                    }
                }
            }
        }
        let ghost pre_chunks = terrain.chunks();
        let ghost pre_launched = launched@;
        let e = terrain.spawn_chunk_entity(c);
        manager.register_chunk(c, e);
        launched.push((e, c));
        proof {
            assert(launched@.drop_last() =~= pre_launched);
            assert(launched@[n as int] == (e, c));
            lemma_launched_push(pre_launched, (e, c));
            assert(launched_chunks(launched@) == launched_chunks(pre_launched).push(c));
            // membership of the launch list grew by exactly c
            assert forall|c2: Chunk| #[trigger]
                launched_chunks(launched@).contains(c2) <==> launched_chunks(
                    pre_launched,
                ).contains(c2) || c2 == c by {
                let lc = launched_chunks(launched@);
                let lp = launched_chunks(pre_launched);
                if lc.contains(c2) {
                    let w = choose|w: int| 0 <= w < lc.len() && (#[trigger] lc[w]) == c2;
                    if w < lp.len() {
                        assert(lp[w] == c2);
                    }
                }
                if lp.contains(c2) {
                    let w = choose|w: int| 0 <= w < lp.len() && (#[trigger] lp[w]) == c2;
                    assert(lc[w] == c2);
                }
                if c2 == c {
                    assert(lc[lc.len() - 1] == c2);
                }
            }
            // values registered earlier are untouched: their chunks differ from c
            assert forall|m: int| 0 <= m < n implies manager.placed()[(
            #[trigger] launched@[m]).1] == launched@[m].0 by {
                assert(pre_launched[m] == launched@[m]);
                assert(launched@[m].1 == cands@[m].0);
                assert(cands@[m].0 != cands@[n as int].0);
            }
            // one more loading slot
            assert(terrain.chunks().drop_last() =~= pre_chunks);
            assert(loading_count(terrain.chunks()) == loading_count(pre_chunks) + 1);
        }
        n = n + 1;
    }
    proof {
        // the loop stopped at the budget or exhausted the candidates
        assert(n == budget || n == cands@.len());
        if loading_count(old_chunks) < limiter.max_concurrent_tasks && n != budget {
            assert forall|c: Chunk| candidate(*old(manager), c) implies launched_chunks(
                launched@,
            ).contains(c) by {
                let m = choose|m: int| 0 <= m < cands@.len() && (#[trigger] cands@[m]).0 == c;
                assert(launched@[m].1 == c);
                assert(launched_chunks(launched@)[m] == c);
            }
        }
        // the batch is ordered nearest first
        assert forall|k1: int, k2: int| 0 <= k1 <= k2 < launched@.len() implies (
        #[trigger] launched@[k1]).1.spec_distance_squared(observer.tile) <= (
        #[trigger] launched@[k2]).1.spec_distance_squared(observer.tile) by {
            assert(cands@[k1].1 <= cands@[k2].1);
        }
        // nothing left behind is nearer than anything launched
        assert forall|c: Chunk, k: int|
            #![trigger candidate(*old(manager), c), launched@[k]]
            candidate(*old(manager), c) && !launched_chunks(launched@).contains(c) && 0 <= k
                < launched@.len() implies launched@[k].1.spec_distance_squared(
                observer.tile,
            ) <= c.spec_distance_squared(observer.tile) by {
            let m = choose|m: int| 0 <= m < cands@.len() && (#[trigger] cands@[m]).0 == c;
            if m < n {
                assert(launched@[m].1 == c);
                assert(launched_chunks(launched@)[m] == c);
                assert(launched_chunks(launched@).contains(c));
            } else {
                assert(cands@[k].1 <= cands@[m].1);
            }
        }
        // the fresh entities were never in the old scene
        assert forall|k: int| 0 <= k < launched@.len() implies !old(terrain).contains_entity(
            (#[trigger] launched@[k]).0,
        ) by {
            if old(terrain).contains_entity(launched@[k].0) {
                let i = choose|i: int|
                    0 <= i < old(terrain).chunks().len() && (#[trigger] old(
                        terrain,
                    ).chunks()[i]).entity == launched@[k].0;
                assert(old(terrain).chunks()[i].entity.id < old_next);
            }
        }
    }
    launched
}

} // verus!
