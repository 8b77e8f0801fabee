use vstd::prelude::*;

use crate::chunk::Chunk;
use crate::lifecycle::Entity;

verus! {

/// No two pairs carry the same chunk key.
pub open spec fn distinct_keys(s: Seq<(Chunk, Entity)>) -> bool {
    forall|i: int, j: int|
        0 <= i < j < s.len() ==> (#[trigger] s[i]).0 != (#[trigger] s[j]).0
}

/// Whether some pair carries the chunk key `c`.
pub open spec fn has_key(s: Seq<(Chunk, Entity)>, c: Chunk) -> bool {
    exists|i: int| 0 <= i < s.len() && (#[trigger] s[i]).0 == c
}

/// An index of the pair that carries the chunk key `c`.
pub open spec fn key_index(s: Seq<(Chunk, Entity)>, c: Chunk) -> int {
    choose|i: int| 0 <= i < s.len() && (#[trigger] s[i]).0 == c
}

/// The mapping that a sequence of distinct-keyed pairs stands for.
pub open spec fn pairs_to_map(s: Seq<(Chunk, Entity)>) -> Map<Chunk, Entity> {
    Map::new(|c: Chunk| has_key(s, c), |c: Chunk| s[key_index(s, c)].1)
}

/// The authoritative record of which chunks should exist now (the desired
/// set) and which chunks already have an entity (the placement map).
pub struct ChunkManager {
    desired_chunks: Vec<Chunk>,
    chunk_entities: Vec<(Chunk, Entity)>,
}

impl ChunkManager {
    /// The desired set: every chunk that should currently exist.
    pub closed spec fn desired(self) -> Set<Chunk> {
        self.desired_chunks@.to_set()
    }

    /// The placement map: the entity registered for each scheduled chunk.
    pub closed spec fn placed(self) -> Map<Chunk, Entity> {
        pairs_to_map(self.chunk_entities@)
    }

    /// The backing vectors carry each chunk at most once.
    pub closed spec fn inv(self) -> bool {
        self.desired_chunks@.no_duplicates() && distinct_keys(self.chunk_entities@)
    }

    /// Adds `pos` to the desired set; already-desired chunks are left as
    /// they are.
    pub fn request_chunk(&mut self, pos: Chunk)
        requires
            old(self).inv(),
        ensures
            final(self).inv(),
            final(self).desired() == old(self).desired().insert(pos),
            final(self).placed() == old(self).placed(),
    {
        if !contains_chunk(&self.desired_chunks, &pos) {
            self.desired_chunks.push(pos);
            proof {
                assert(self.desired_chunks@.drop_last() =~= old(self).desired_chunks@);
                assert forall|c: Chunk| #[trigger]
                    self.desired().contains(c) <==> old(self).desired().insert(pos).contains(
                        c,
                    ) by {
                    if self.desired_chunks@.contains(c) {
                        let i = choose|i: int|
                            0 <= i < self.desired_chunks@.len() && self.desired_chunks@[i] == c;
                        if i < self.desired_chunks@.len() - 1 {
                            assert(old(self).desired_chunks@[i] == c);
                        }
                    }
                    if old(self).desired_chunks@.contains(c) {
                        let i = choose|i: int|
                            0 <= i < old(self).desired_chunks@.len() && old(
                                self,
                            ).desired_chunks@[i] == c;
                        assert(self.desired_chunks@[i] == c);
                    }
                    if c == pos {
                        assert(self.desired_chunks@.last() == pos);
                    }
                }
                assert(self.desired() =~= old(self).desired().insert(pos));
            }
        } else {
            proof {
                assert(self.desired() =~= old(self).desired().insert(pos));
            }
        }
    }

    /// Removes `pos` from the desired set. Present as an operation, but not
    /// called by the shipped area policy: under that policy the desired set
    /// never shrinks.
    pub fn _unload_chunk(&mut self, pos: Chunk)
        requires
            old(self).inv(),
        ensures
            final(self).inv(),
            final(self).desired() == old(self).desired().remove(pos),
            final(self).placed() == old(self).placed(),
    {
        let mut i: usize = 0;
        while i < self.desired_chunks.len()
            invariant
                0 <= i <= self.desired_chunks.len(),
                old(self).inv(),
                self.desired_chunks == old(self).desired_chunks,
                self.chunk_entities == old(self).chunk_entities,
                forall|j: int| 0 <= j < i ==> self.desired_chunks@[j] != pos,
            decreases self.desired_chunks.len() - i,
        {
            if self.desired_chunks[i].x == pos.x && self.desired_chunks[i].y == pos.y {
                let ghost pre = self.desired_chunks@;
                self.desired_chunks.remove(i);
                proof {
                    lemma_remove_one(pre, self.desired_chunks@, i as int, pos);
                    assert(self.desired() =~= old(self).desired().remove(pos));
                }
                return ;
            }
            i = i + 1;
        }
        proof {
            assert(!self.desired_chunks@.contains(pos));
            assert(self.desired() =~= old(self).desired().remove(pos));
        }
    }

    /// Membership test against the desired set.
    pub fn should_exist(&self, pos: &Chunk) -> (r: bool)
        ensures
            r == self.desired().contains(*pos),
    {
        contains_chunk(&self.desired_chunks, pos)
    }

    /// The entity registered for `pos`, if any.
    pub fn get_entity(&self, pos: &Chunk) -> (r: Option<Entity>)
        requires
            self.inv(),
        ensures
            r == if self.placed().dom().contains(*pos) {
                Some(self.placed()[*pos])
            } else {
                None::<Entity>
            },
    {
        let mut i: usize = 0;
        while i < self.chunk_entities.len()
            invariant
                self.inv(),
                0 <= i <= self.chunk_entities.len(),
                forall|j: int| 0 <= j < i ==> (#[trigger] self.chunk_entities@[j]).0 != *pos,
            decreases self.chunk_entities.len() - i,
        {
            let (c, e) = self.chunk_entities[i];
            if c.x == pos.x && c.y == pos.y {
                proof {
                    assert(self.chunk_entities@[i as int].0 == *pos);
                    let k = key_index(self.chunk_entities@, *pos);
                    assert(0 <= k < self.chunk_entities@.len() && self.chunk_entities@[k].0
                        == *pos);
                    assert(k == i as int);
                }
                return Some(e);
            }
            i = i + 1;
        }
        None
    }

    /// Records the entity for `pos`. Registering the same chunk twice
    /// overwrites the handle; correct operation never does so, because the
    /// admission controller schedules only chunks with no entity.
    pub fn register_chunk(&mut self, pos: Chunk, entity: Entity)
        requires
            old(self).inv(),
        ensures
            final(self).inv(),
            final(self).desired() == old(self).desired(),
            final(self).placed() == old(self).placed().insert(pos, entity),
    {
        let mut i: usize = 0;
        while i < self.chunk_entities.len()
            invariant
                0 <= i <= self.chunk_entities.len(),
                self.desired_chunks == old(self).desired_chunks,
                self.chunk_entities == old(self).chunk_entities,
                old(self).inv(),
                forall|j: int| 0 <= j < i ==> (#[trigger] self.chunk_entities@[j]).0 != pos,
            decreases self.chunk_entities.len() - i,
        {
            let (c, _) = self.chunk_entities[i];
            if c.x == pos.x && c.y == pos.y {
                self.chunk_entities.set(i, (pos, entity));
                proof {
                    lemma_set_key(
                        old(self).chunk_entities@,
                        self.chunk_entities@,
                        i as int,
                        pos,
                        entity,
                    );
                    assert(self.placed() =~= old(self).placed().insert(pos, entity));
                }
                return ;
            }
            i = i + 1;
        }
        self.chunk_entities.push((pos, entity));
        proof {
            let post = self.chunk_entities@;
            let pre = old(self).chunk_entities@;
            assert(post.drop_last() =~= pre);
            assert forall|c: Chunk| #[trigger] has_key(post, c) <==> has_key(pre, c) || c
                == pos by {
                if has_key(post, c) {
                    let j = choose|j: int| 0 <= j < post.len() && post[j].0 == c;
                    if j < post.len() - 1 {
                        assert(pre[j].0 == c);
                    }
                }
                if has_key(pre, c) {
                    let j = choose|j: int| 0 <= j < pre.len() && pre[j].0 == c;
                    assert(post[j].0 == c);
                }
                if c == pos {
                    assert(post[post.len() - 1].0 == c);
                }
            }
            assert forall|c: Chunk| has_key(post, c) implies post[key_index(post, c)].1 == old(
                self,
            ).placed().insert(pos, entity)[c] by {
                let k = key_index(post, c);
                assert(0 <= k < post.len() && post[k].0 == c);
                if c == pos {
                    assert(post[post.len() - 1].0 == pos);
                    assert forall|j: int| 0 <= j < post.len() - 1 implies post[j].0 != pos by {
                        assert(pre[j].0 == post[j].0);
                    }
                    assert(k == post.len() - 1);
                } else {
                    assert(k < post.len() - 1);
                    assert(pre[k].0 == c);
                    let k2 = key_index(pre, c);
                    assert(0 <= k2 < pre.len() && pre[k2].0 == c);
                    assert(k2 == k);
                }
            }
            assert(self.placed() =~= old(self).placed().insert(pos, entity));
        }
    }

    /// Forgets the entity registered for `pos`. Present as an operation,
    /// but never called in the baseline flow: a dormant chunk keeps its
    /// entity.
    pub fn _unregister_chunk(&mut self, pos: &Chunk)
        requires
            old(self).inv(),
        ensures
            final(self).inv(),
            final(self).desired() == old(self).desired(),
            final(self).placed() == old(self).placed().remove(*pos),
    {
        let mut i: usize = 0;
        while i < self.chunk_entities.len()
            invariant
                0 <= i <= self.chunk_entities.len(),
                self.desired_chunks == old(self).desired_chunks,
                self.chunk_entities == old(self).chunk_entities,
                old(self).inv(),
                forall|j: int| 0 <= j < i ==> (#[trigger] self.chunk_entities@[j]).0 != *pos,
            decreases self.chunk_entities.len() - i,
        {
            let (c, _) = self.chunk_entities[i];
            if c.x == pos.x && c.y == pos.y {
                let ghost pre = self.chunk_entities@;
                self.chunk_entities.remove(i);
                proof {
                    lemma_remove_key(pre, self.chunk_entities@, i as int, *pos);
                    assert(self.placed() =~= old(self).placed().remove(*pos));
                }
                return ;
            }
            i = i + 1;
        }
        proof {
            assert(!has_key(self.chunk_entities@, *pos));
            assert(self.placed() =~= old(self).placed().remove(*pos));
        }
    }

    /// A snapshot of the desired set, in no promised order.
    pub fn iter_desired_chunks(&self) -> (r: Vec<Chunk>)
        requires
            self.inv(),
        ensures
            r@.to_set() == self.desired(),
            r@.no_duplicates(),
    {
        let mut r: Vec<Chunk> = Vec::new();
        let mut i: usize = 0;
        while i < self.desired_chunks.len()
            invariant
                0 <= i <= self.desired_chunks.len(),
                self.inv(),
                r@ =~= self.desired_chunks@.subrange(0, i as int),
            decreases self.desired_chunks.len() - i,
        {
            r.push(self.desired_chunks[i]);
            i = i + 1;
        }
        proof {
            assert(r@ =~= self.desired_chunks@);
            assert(r@.to_set() =~= self.desired());
        }
        r
    }
}

impl Default for ChunkManager {
    /// A registry with an empty desired set and an empty placement map.
    fn default() -> (m: ChunkManager)
        ensures
            m.inv(),
            m.desired() == Set::<Chunk>::empty(),
            m.placed() == Map::<Chunk, Entity>::empty(),
    {
        let m = ChunkManager { desired_chunks: Vec::new(), chunk_entities: Vec::new() };
        proof {
            assert(m.desired() =~= Set::<Chunk>::empty());
            assert(m.placed() =~= Map::<Chunk, Entity>::empty());
        }
        m
    }
}

/// Linear scan for a chunk in a vector.
fn contains_chunk(v: &Vec<Chunk>, c: &Chunk) -> (r: bool)
    ensures
        r == v@.contains(*c),
{
    let mut i: usize = 0;
    while i < v.len()
        invariant
            0 <= i <= v.len(),
            forall|j: int| 0 <= j < i ==> v@[j] != *c,
        decreases v.len() - i,
    {
        if v[i].x == c.x && v[i].y == c.y {
            assert(v@[i as int] == *c);
            return true;
        }
        i = i + 1;
    }
    false
}

/// Removing the only occurrence of `pos` from a duplicate-free sequence
/// removes exactly `pos` from the membership and keeps the rest.
proof fn lemma_remove_one(pre: Seq<Chunk>, post: Seq<Chunk>, i: int, pos: Chunk)
    requires
        pre.no_duplicates(),
        0 <= i < pre.len(),
        pre[i] == pos,
        post == pre.remove(i),
    ensures
        post.no_duplicates(),
        forall|c: Chunk| post.contains(c) <==> pre.contains(c) && c != pos,
{
    assert forall|c: Chunk| #[trigger] post.contains(c) implies pre.contains(c) && c != pos by {
        let j = choose|j: int| 0 <= j < post.len() && post[j] == c;
        if j < i {
            assert(pre[j] == c);
        } else {
            assert(pre[j + 1] == c);
        }
    }
    assert forall|c: Chunk| pre.contains(c) && c != pos implies #[trigger] post.contains(c) by {
        let j = choose|j: int| 0 <= j < pre.len() && pre[j] == c;
        if j < i {
            assert(post[j] == c);
        } else {
            assert(j != i);
            assert(post[j - 1] == c);
        }
    }
    assert forall|a: int, b: int| 0 <= a < b < post.len() implies post[a] != post[b] by {
        let a2 = if a < i {
            a
        } else {
            a + 1
        };
        let b2 = if b < i {
            b
        } else {
            b + 1
        };
        assert(post[a] == pre[a2] && post[b] == pre[b2]);
    }
}

/// Overwriting the value at the pair that carries `pos` turns the mapping
/// into the old mapping with `pos` bound anew.
proof fn lemma_set_key(
    pre: Seq<(Chunk, Entity)>,
    post: Seq<(Chunk, Entity)>,
    i: int,
    pos: Chunk,
    entity: Entity,
)
    requires
        distinct_keys(pre),
        0 <= i < pre.len(),
        pre[i].0 == pos,
        post == pre.update(i, (pos, entity)),
    ensures
        distinct_keys(post),
        pairs_to_map(post) =~= pairs_to_map(pre).insert(pos, entity),
{
    assert forall|c: Chunk| #[trigger] has_key(post, c) <==> has_key(pre, c) by {
        if has_key(post, c) {
            let j = choose|j: int| 0 <= j < post.len() && post[j].0 == c;
            assert(pre[j].0 == c);
        }
        if has_key(pre, c) {
            let j = choose|j: int| 0 <= j < pre.len() && pre[j].0 == c;
            assert(post[j].0 == c);
        }
    }
    assert forall|c: Chunk| has_key(post, c) implies post[key_index(post, c)].1 == pairs_to_map(
        pre,
    ).insert(pos, entity)[c] by {
        let k = key_index(post, c);
        assert(0 <= k < post.len() && post[k].0 == c);
        if c == pos {
            assert(k == i);
        } else {
            assert(k != i);
            assert(pre[k].0 == c);
            let k2 = key_index(pre, c);
            assert(0 <= k2 < pre.len() && pre[k2].0 == c);
            assert(k2 == k);
        }
    }
}

/// Removing the pair that carries `pos` removes exactly `pos` from the
/// mapping.
proof fn lemma_remove_key(pre: Seq<(Chunk, Entity)>, post: Seq<(Chunk, Entity)>, i: int, pos: Chunk)
    requires
        distinct_keys(pre),
        0 <= i < pre.len(),
        pre[i].0 == pos,
        post == pre.remove(i),
    ensures
        distinct_keys(post),
        pairs_to_map(post) =~= pairs_to_map(pre).remove(pos),
{
    assert forall|a: int, b: int| 0 <= a < b < post.len() implies (#[trigger] post[a]).0 != (
    #[trigger] post[b]).0 by {
        let a2 = if a < i {
            a
        } else {
            a + 1
        };
        let b2 = if b < i {
            b
        } else {
            b + 1
        };
        assert(post[a] == pre[a2] && post[b] == pre[b2]);
    }
    assert forall|c: Chunk| #[trigger] has_key(post, c) <==> has_key(pre, c) && c != pos by {
        if has_key(post, c) {
            let j = choose|j: int| 0 <= j < post.len() && post[j].0 == c;
            if j < i {
                assert(pre[j].0 == c);
                assert(j != i);
                if c == pos {
                    assert(pre[j].0 == pre[i].0);
                }
            } else {
                assert(pre[j + 1].0 == c);
                if c == pos {
                    assert(pre[j + 1].0 == pre[i].0);
                }
            }
        }
        if has_key(pre, c) && c != pos {
            let j = choose|j: int| 0 <= j < pre.len() && pre[j].0 == c;
            assert(j != i);
            if j < i {
                assert(post[j].0 == c);
            } else {
                assert(post[j - 1].0 == c);
            }
        }
    }
    assert forall|c: Chunk| has_key(post, c) implies post[key_index(post, c)].1 == pairs_to_map(
        pre,
    ).remove(pos)[c] by {
        let k = key_index(post, c);
        assert(0 <= k < post.len() && post[k].0 == c);
        let k2 = if k < i {
            k
        } else {
            k + 1
        };
        assert(pre[k2].0 == c);
        let kp = key_index(pre, c);
        assert(0 <= kp < pre.len() && pre[kp].0 == c);
        assert(kp == k2);
    }
}

} // verus!
