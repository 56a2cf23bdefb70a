//! A volume of octree chunks with lists of what its viewers see, what is to be loaded
//! and what is to be rendered.
use vstd::prelude::*;

use crate::octree::Octree;
use crate::vec3::IVec3;
use crate::voxel::Voxel;

verus! {

/// The depth of a chunk's octree.
pub const CHUNK_DEPTH: u8 = 4;

/// A chunk: an octree of voxels.
pub type Chunk = Octree<Voxel, 4>;

/// The kind of voxel that stands in for a chunk's contents until generation exists:
/// solid below height `0`, empty from there up.
pub open spec fn placeholder_kind(position: IVec3) -> u16 {
    if position.y < 0 {
        1
    } else {
        0
    }
}

/// Whether some entry of `s` is at `q`.
pub open spec fn has_pos(s: Seq<(IVec3, Chunk, u64)>, q: IVec3) -> bool {
    exists|j: int| 0 <= j < s.len() && #[trigger] s[j].0 == q
}

/// The chunks of a volume, each with the entity that shows it, and the position lists of
/// the last visibility pass.
pub struct VoxelVolume {
    chunks: Vec<(IVec3, Chunk, u64)>,
    load: Vec<IVec3>,
    visible: Vec<IVec3>,
    render: Vec<IVec3>,
}

impl VoxelVolume {
    /// The positions of the loaded chunks.
    pub closed spec fn loaded(&self) -> Set<IVec3> {
        Set::new(|p: IVec3| exists|i: int| 0 <= i < self.chunks@.len() && #[trigger] self.chunks@[i].0 == p)
    }

    /// The visible positions that are not loaded, as of the last pass.
    pub closed spec fn pending(&self) -> Seq<IVec3> {
        self.load@
    }

    /// The visible positions of the last pass.
    pub closed spec fn visible_list(&self) -> Seq<IVec3> {
        self.visible@
    }

    /// The positions to render.
    pub closed spec fn render_list(&self) -> Seq<IVec3> {
        self.render@
    }

    /// A volume with nothing loaded and empty lists.
    pub fn new() -> (r: Self)
        ensures
            r.loaded() == Set::<IVec3>::empty(),
            r.pending() == Seq::<IVec3>::empty(),
            r.visible_list() == Seq::<IVec3>::empty(),
            r.render_list() == Seq::<IVec3>::empty(),
    {
        let r = Self { chunks: Vec::new(), load: Vec::new(), visible: Vec::new(), render: Vec::new() };
        assert(r.loaded() =~= Set::<IVec3>::empty());
        r
    }

    fn is_loaded(&self, pos: IVec3) -> (r: bool)
        ensures
            r == self.loaded().contains(pos),
    {
        let mut i: usize = 0;
        while i < self.chunks.len()
            invariant
                i <= self.chunks@.len(),
                forall|j: int| 0 <= j < i ==> self.chunks@[j].0 != pos,
            decreases self.chunks@.len() - i,
        {
            let p = self.chunks[i].0;
            if p.x == pos.x && p.y == pos.y && p.z == pos.z {
                assert(self.chunks@[i as int].0 == pos);
                return true;
            }
            i = i + 1;
        }
        false
    }

    /// Takes the visible positions of a pass: those not loaded become the load list, in
    /// order.
    pub fn update_visible_list(&mut self, visible: Vec<IVec3>)
        ensures
            final(self).loaded() == old(self).loaded(),
            final(self).render_list() == old(self).render_list(),
            final(self).visible_list() == visible@,
            final(self).pending() == visible@.filter(|p: IVec3| !old(self).loaded().contains(p)),
    {
        let ghost pred = |p: IVec3| !self.loaded().contains(p);
        let mut load: Vec<IVec3> = Vec::new();
        let mut i: usize = 0;
        while i < visible.len()
            invariant
                i <= visible@.len(),
                pred == (|p: IVec3| !self.loaded().contains(p)),
                self.loaded() == old(self).loaded(),
                load@ == visible@.take(i as int).filter(pred),
            decreases visible@.len() - i,
        {
            let p = visible[i];
            proof {
                assert(visible@.take(i + 1) == visible@.take(i as int).push(p));
                visible@.take(i as int).lemma_filter_push(p, pred);
            }
            if !self.is_loaded(p) {
                load.push(p);
            }
            i = i + 1;
        }
        assert(visible@.take(visible@.len() as int) == visible@);
        self.load = load;
        self.visible = visible;
        assert(self.loaded() =~= old(self).loaded());
    }

    /// Takes the positions to render.
    pub fn update_render_list(&mut self, render: Vec<IVec3>)
        ensures
            final(self).loaded() == old(self).loaded(),
            final(self).pending() == old(self).pending(),
            final(self).visible_list() == old(self).visible_list(),
            final(self).render_list() == render@,
    {
        self.render = render;
        assert(self.loaded() =~= old(self).loaded());
    }

    /// A chunk for each position of the load list, in order: solid below height `0`,
    /// empty from there up.
    pub fn load_chunks(&self) -> (r: Vec<(IVec3, Chunk)>)
        ensures
            r@.len() == self.pending().len(),
            forall|i: int|
                0 <= i < r@.len() ==> (#[trigger] r@[i]).0 == self.pending()[i] && r@[i].1.wf()
                    && forall|q: crate::vec3::U8Vec3| #[trigger] r@[i].1.spec_get(q) == Voxel(
                    placeholder_kind(self.pending()[i]),
                ),
    {
        let mut out: Vec<(IVec3, Chunk)> = Vec::new();
        let mut i: usize = 0;
        while i < self.load.len()
            invariant
                i <= self.load@.len(),
                out@.len() == i,
                forall|j: int|
                    0 <= j < i ==> (#[trigger] out@[j]).0 == self.load@[j] && out@[j].1.wf()
                        && forall|q: crate::vec3::U8Vec3| #[trigger] out@[j].1.spec_get(q) == Voxel(
                        placeholder_kind(self.load@[j]),
                    ),
            decreases self.load@.len() - i,
        {
            let position = self.load[i];
            let kind: u16 = if position.y < 0 {
                1
            } else {
                0
            };
            let chunk: Chunk = Octree::uniform(Voxel(kind));
            out.push((position, chunk));
            proof {
                assert forall|j: int| 0 <= j < i + 1 implies (#[trigger] out@[j]).0 == self.load@[j]
                    && out@[j].1.wf() && forall|q: crate::vec3::U8Vec3| #[trigger] out@[j].1.spec_get(
                    q,
                ) == Voxel(placeholder_kind(self.load@[j])) by {
                    if j < i {
                    }
                }
            }
            i = i + 1;
        }
        out
    }

    /// Records that the chunk at `pos` is loaded and shown by `entity`, replacing what was
    /// there.
    pub fn insert(&mut self, pos: IVec3, chunk: Chunk, entity: u64)
        ensures
            final(self).loaded() == old(self).loaded().insert(pos),
            final(self).pending() == old(self).pending(),
            final(self).visible_list() == old(self).visible_list(),
            final(self).render_list() == old(self).render_list(),
    {
        let mut i: usize = 0;
        while i < self.chunks.len()
            invariant
                i <= self.chunks@.len(),
                self.chunks@ == old(self).chunks@,
                self.load@ == old(self).load@,
                self.visible@ == old(self).visible@,
                self.render@ == old(self).render@,
                forall|j: int| 0 <= j < i ==> self.chunks@[j].0 != pos,
            decreases self.chunks@.len() - i,
        {
            let p = self.chunks[i].0;
            if p.x == pos.x && p.y == pos.y && p.z == pos.z {
                let ghost before = self.chunks@;
                self.chunks.set(i, (pos, chunk, entity));
                proof {
                    assert forall|q: IVec3| #[trigger] self.loaded().contains(q) == old(self).loaded().insert(pos).contains(q) by {
                        if old(self).loaded().contains(q) {
                            let j = choose|j: int| 0 <= j < before.len() && #[trigger] before[j].0 == q;
                            assert(self.chunks@[j].0 == q);
                        }
                        if self.loaded().contains(q) {
                            let j = choose|j: int| 0 <= j < self.chunks@.len() && #[trigger] self.chunks@[j].0 == q;
                            if j != i {
                                assert(before[j].0 == q);
                            }
                        }
                    }
                    assert(self.loaded() =~= old(self).loaded().insert(pos));
                }
                return;
            }
            i = i + 1;
        }
        let ghost before = self.chunks@;
        self.chunks.push((pos, chunk, entity));
        proof {
            assert forall|q: IVec3| #[trigger] self.loaded().contains(q) == old(self).loaded().insert(pos).contains(q) by {
                if old(self).loaded().contains(q) {
                    let j = choose|j: int| 0 <= j < before.len() && #[trigger] before[j].0 == q;
                    assert(self.chunks@[j].0 == q);
                }
                if self.loaded().contains(q) {
                    let j = choose|j: int| 0 <= j < self.chunks@.len() && #[trigger] self.chunks@[j].0 == q;
                    if j < before.len() {
                        assert(before[j].0 == q);
                    }
                }
                if q == pos {
                    assert(self.chunks@[before.len() as int].0 == q);
                }
            }
            assert(self.loaded() =~= old(self).loaded().insert(pos));
        }
    }

    /// Drops the chunks at `positions`.
    pub fn unload_chunks(&mut self, positions: &[IVec3])
        ensures
            final(self).loaded() == old(self).loaded().difference(positions@.to_set()),
            final(self).pending() == old(self).pending(),
            final(self).visible_list() == old(self).visible_list(),
            final(self).render_list() == old(self).render_list(),
    {
        let mut kept: Vec<(IVec3, Chunk, u64)> = Vec::new();
        let mut chunks: Vec<(IVec3, Chunk, u64)> = Vec::new();
        std::mem::swap(&mut chunks, &mut self.chunks);
        let ghost all = chunks@;
        while chunks.len() > 0
            invariant
                self.load@ == old(self).load@,
                self.visible@ == old(self).visible@,
                self.render@ == old(self).render@,
                all == old(self).chunks@,
                chunks@.len() <= all.len(),
                chunks@ == all.take(chunks@.len() as int),
                forall|q: IVec3|
                    #[trigger] has_pos(kept@, q) <==> has_pos(
                        all.subrange(chunks@.len() as int, all.len() as int),
                        q,
                    ) && !positions@.contains(q),
            decreases chunks@.len(),
        {
            let ghost before = kept@;
            let ghost n = chunks@.len();
            let entry = chunks.pop().unwrap();
            let p = entry.0;
            let mut hit = false;
            let mut k: usize = 0;
            while k < positions.len()
                invariant
                    k <= positions@.len(),
                    hit == exists|m: int| 0 <= m < k && positions@[m] == p,
                decreases positions@.len() - k,
            {
                let q = positions[k];
                if q.x == p.x && q.y == p.y && q.z == p.z {
                    hit = true;
                }
                k = k + 1;
            }
            proof {
                assert(all[n - 1] == entry);
                assert(chunks@ =~= all.take(n - 1));
                if hit {
                    let m = choose|m: int| 0 <= m < k && positions@[m] == p;
                    assert(positions@.contains(p));
                }
                assert(hit == positions@.contains(p));
            }
            if !hit {
                kept.push(entry);
            }
            proof {
                let tail = all.subrange(n - 1, all.len() as int);
                let tail0 = all.subrange(n as int, all.len() as int);
                assert(tail =~= seq![entry] + tail0);
                assert forall|q: IVec3| has_pos(tail, q) == (has_pos(tail0, q) || p == q) by {
                    if has_pos(tail, q) {
                        let j = choose|j: int| 0 <= j < tail.len() && #[trigger] tail[j].0 == q;
                        if j > 0 {
                            assert(tail0[j - 1].0 == q);
                        }
                    }
                    if has_pos(tail0, q) {
                        let j = choose|j: int| 0 <= j < tail0.len() && #[trigger] tail0[j].0 == q;
                        assert(tail[j + 1].0 == q);
                    }
                    if p == q {
                        assert(tail[0].0 == q);
                    }
                }
                assert forall|q: IVec3| has_pos(kept@, q) == (has_pos(before, q) || (!hit && p == q)) by {
                    if has_pos(kept@, q) {
                        let j = choose|j: int| 0 <= j < kept@.len() && #[trigger] kept@[j].0 == q;
                        if j < before.len() {
                            assert(before[j].0 == q);
                        }
                    }
                    if has_pos(before, q) {
                        let j = choose|j: int| 0 <= j < before.len() && #[trigger] before[j].0 == q;
                        assert(kept@[j].0 == q);
                    }
                    if !hit && p == q {
                        assert(kept@[before.len() as int].0 == q);
                    }
                }
                assert forall|q: IVec3| #[trigger] has_pos(kept@, q) <==> has_pos(tail, q)
                    && !positions@.contains(q) by {
                    assert(has_pos(before, q) <==> has_pos(tail0, q) && !positions@.contains(q));
                }
            }
        }
        self.chunks = kept;
        proof {
            assert(all.subrange(0, all.len() as int) =~= all);
            assert forall|q: IVec3| #[trigger] self.loaded().contains(q) == old(self).loaded().difference(positions@.to_set()).contains(q) by {
                assert(old(self).loaded().contains(q) == has_pos(all, q));
                assert(self.loaded().contains(q) == has_pos(kept@, q));
                assert(positions@.to_set().contains(q) == positions@.contains(q));
            }
            assert(self.loaded() =~= old(self).loaded().difference(positions@.to_set()));
        }
    }
}

/// The placeholder chunks `load_chunks` hands out depend on height alone: a chunk below
/// height `0` (`y < 0`) is solid (`Voxel(1)`) everywhere, any other is empty (`Voxel(0)`)
/// everywhere, whatever its `x` and `z`.
pub proof fn law_placeholders_by_height(
    positions: Seq<IVec3>,
    loaded: Seq<(IVec3, Chunk)>,
    i: int,
    q: crate::vec3::U8Vec3,
)
    requires
        loaded.len() == positions.len(),
        forall|j: int|
            0 <= j < loaded.len() ==> (#[trigger] loaded[j]).0 == positions[j] && loaded[j].1.wf()
                && forall|p: crate::vec3::U8Vec3| #[trigger] loaded[j].1.spec_get(p) == Voxel(
                placeholder_kind(positions[j]),
            ),
        0 <= i < loaded.len(),
    ensures
        loaded[i].0.y < 0 ==> loaded[i].1.spec_get(q) == Voxel(1),
        loaded[i].0.y >= 0 ==> loaded[i].1.spec_get(q) == Voxel(0),
{
    assert(loaded[i].1.spec_get(q) == Voxel(placeholder_kind(positions[i])));
}

} // verus!
