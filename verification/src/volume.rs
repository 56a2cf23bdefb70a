//! Which chunks of a voxel volume to keep, to generate, to mesh and to drop, given what
//! its viewers see.
use vstd::prelude::*;

use crate::vec3::IVec3;

verus! {

broadcast use vstd::seq_lib::lemma_seq_contains_after_push;

/// How far a known chunk has come.
#[derive(Debug, Clone, Copy)]
pub struct ChunkStatus {
    /// Its voxel data was generated.
    pub has_data: bool,
    /// A mesher is working on it.
    pub meshing: bool,
    /// It has a mesh.
    pub meshed: bool,
}

impl ChunkStatus {
    /// A chunk gets a mesher once its data is there, when it neither has a mesh nor is
    /// being meshed.
    pub fn needs_mesher(&self) -> (r: bool)
        ensures
            r == (self.has_data && !self.meshing && !self.meshed),
    {
        self.has_data && !self.meshing && !self.meshed
    }
}

/// What to do after a visibility pass: generate chunks at `spawn`, look at the known
/// visible chunks `check` (entity ids) to mesh them, drop the entities `despawn`.
pub struct ActiveChunks {
    pub spawn: Vec<IVec3>,
    pub check: Vec<u64>,
    pub despawn: Vec<u64>,
}

/// The chunks of a volume: each chunk position with the id of the entity that holds it.
pub struct VoxelVolume {
    chunks: Vec<(IVec3, u64)>,
}

/// Whether `p` is a key of the pairs.
pub open spec fn has_key(s: Seq<(IVec3, u64)>, p: IVec3) -> bool {
    exists|i: int| 0 <= i < s.len() && #[trigger] s[i].0 == p
}

/// The pairs as a map.
pub open spec fn pairs_map(s: Seq<(IVec3, u64)>) -> Map<IVec3, u64> {
    Map::new(
        |p: IVec3| has_key(s, p),
        |p: IVec3| s[choose|i: int| 0 <= i < s.len() && #[trigger] s[i].0 == p].1,
    )
}

/// No key occurs twice.
pub open spec fn keys_distinct(s: Seq<(IVec3, u64)>) -> bool {
    forall|i: int, j: int| 0 <= i < j < s.len() ==> #[trigger] s[i].0 != #[trigger] s[j].0
}

/// With distinct keys, the map gives each pair's value.
proof fn lemma_pairs_map(s: Seq<(IVec3, u64)>, i: int)
    requires
        keys_distinct(s),
        0 <= i < s.len(),
    ensures
        pairs_map(s).contains_key(s[i].0),
        pairs_map(s)[s[i].0] == s[i].1,
{
    let p = s[i].0;
    assert(has_key(s, p));
    let j = choose|j: int| 0 <= j < s.len() && #[trigger] s[j].0 == p;
    if i < j {
        assert(s[i].0 != s[j].0);
    } else if j < i {
        assert(s[j].0 != s[i].0);
    }
}

fn same_pos(a: IVec3, b: IVec3) -> (r: bool)
    ensures
        r == (a == b),
{
    a.x == b.x && a.y == b.y && a.z == b.z
}

fn contains_pos(v: &Vec<IVec3>, p: IVec3) -> (r: bool)
    ensures
        r == v@.contains(p),
{
    let mut i: usize = 0;
    while i < v.len()
        invariant
            i <= v@.len(),
            forall|j: int| 0 <= j < i ==> v@[j] != p,
        decreases v@.len() - i,
    {
        if same_pos(v[i], p) {
            return true;
        }
        i = i + 1;
    }
    false
}

/// The pairs of `s` whose key is in `seen`, in order.
pub open spec fn keep_seen(s: Seq<(IVec3, u64)>, seen: Seq<IVec3>) -> Seq<(IVec3, u64)>
    decreases s.len(),
{
    if s.len() == 0 {
        Seq::empty()
    } else {
        let rest = keep_seen(s.drop_last(), seen);
        if seen.contains(s.last().0) {
            rest.push(s.last())
        } else {
            rest
        }
    }
}

/// The kept pairs are exactly the pairs of `s` with a key in `seen`, and their keys stay
/// distinct.
proof fn lemma_keep_seen(s: Seq<(IVec3, u64)>, seen: Seq<IVec3>)
    requires
        keys_distinct(s),
    ensures
        keys_distinct(keep_seen(s, seen)),
        forall|x: (IVec3, u64)|
            keep_seen(s, seen).contains(x) <==> s.contains(x) && seen.contains(x.0),
    decreases s.len(),
{
    if s.len() > 0 {
        let init = s.drop_last();
        assert(keys_distinct(init));
        lemma_keep_seen(init, seen);
        let rest = keep_seen(init, seen);
        assert forall|x: (IVec3, u64)| s.contains(x) <==> init.contains(x) || x == s.last() by {
            if s.contains(x) {
                let l = choose|l: int| 0 <= l < s.len() && s[l] == x;
                if l < init.len() {
                    assert(init[l] == x);
                }
            }
            if init.contains(x) {
                let l = choose|l: int| 0 <= l < init.len() && init[l] == x;
                assert(s[l] == x);
            }
        }
        if seen.contains(s.last().0) {
            let k = rest.push(s.last());
            assert forall|x: (IVec3, u64)| k.contains(x) <==> rest.contains(x) || x == s.last() by {
                if k.contains(x) {
                    let l = choose|l: int| 0 <= l < k.len() && k[l] == x;
                    if l < rest.len() {
                        assert(rest[l] == x);
                    }
                }
                if rest.contains(x) {
                    let l = choose|l: int| 0 <= l < rest.len() && rest[l] == x;
                    assert(k[l] == x);
                }
                if x == s.last() {
                    assert(k[k.len() - 1] == x);
                }
            }
            assert forall|a: int, b: int| 0 <= a < b < k.len() implies #[trigger] k[a].0 != #[trigger] k[b].0 by {
                if b == k.len() - 1 {
                    assert(rest[a] == k[a]);
                    assert(rest.contains(k[a]));
                    assert(init.contains(k[a]));
                    let l = choose|l: int| 0 <= l < init.len() && init[l] == k[a];
                    assert(init[l] == s[l]);
                    assert(s[l].0 != s[s.len() - 1].0);
                } else {
                    assert(rest[a].0 != rest[b].0);
                }
            }
        }
    }
}

/// The positions of `s` without repeats, each where it is first seen.
pub open spec fn first_seen(s: Seq<IVec3>) -> Seq<IVec3>
    decreases s.len(),
{
    if s.len() == 0 {
        Seq::empty()
    } else if s.drop_last().contains(s.last()) {
        first_seen(s.drop_last())
    } else {
        first_seen(s.drop_last()).push(s.last())
    }
}

/// The positions of `s` that `known` does not hold, in order.
pub open spec fn unknown_of(s: Seq<IVec3>, known: Map<IVec3, u64>) -> Seq<IVec3>
    decreases s.len(),
{
    if s.len() == 0 {
        Seq::empty()
    } else if known.contains_key(s.last()) {
        unknown_of(s.drop_last(), known)
    } else {
        unknown_of(s.drop_last(), known).push(s.last())
    }
}

/// Picking the unknown positions keeps only positions of `s`.
proof fn lemma_unknown_of_contains(s: Seq<IVec3>, known: Map<IVec3, u64>, p: IVec3)
    ensures
        unknown_of(s, known).contains(p) ==> s.contains(p),
    decreases s.len(),
{
    if s.len() > 0 {
        lemma_unknown_of_contains(s.drop_last(), known, p);
        if unknown_of(s.drop_last(), known).contains(p) {
            let j = choose|j: int| 0 <= j < s.drop_last().len() && s.drop_last()[j] == p;
            assert(s[j] == p);
        }
        if unknown_of(s, known).contains(p) && !unknown_of(s.drop_last(), known).contains(p) {
            let j = choose|j: int| 0 <= j < unknown_of(s, known).len() && unknown_of(s, known)[j] == p;
            assert(j == unknown_of(s.drop_last(), known).len());
            assert(s[s.len() - 1] == p);
        }
    }
}

/// The unknown positions of the first-seen order of `v` are the unknown positions of `v`
/// in the order first seen.
proof fn lemma_unknown_first_seen(v: Seq<IVec3>, known: Map<IVec3, u64>)
    ensures
        unknown_of(first_seen(v), known) == first_seen(unknown_of(v, known)),
    decreases v.len(),
{
    if v.len() > 0 {
        let w = v.drop_last();
        let x = v.last();
        lemma_unknown_first_seen(w, known);
        lemma_first_seen_contains(w);
        lemma_first_seen_contains(unknown_of(w, known));
        lemma_unknown_of_contains(w, known, x);
        if w.contains(x) {
            if !known.contains_key(x) {
                let j = choose|j: int| 0 <= j < w.len() && w[j] == x;
                lemma_unknown_of_has(w, known, j);
                assert(unknown_of(v, known).drop_last() == unknown_of(w, known));
            }
        } else {
            assert(first_seen(v).drop_last() == first_seen(w));
            assert(first_seen(v).last() == x);
            if !known.contains_key(x) {
                assert(unknown_of(v, known).drop_last() == unknown_of(w, known));
                assert(!unknown_of(w, known).contains(x));
            }
        }
    }
}

/// A position of `s` that `known` does not hold is among the unknown ones.
proof fn lemma_unknown_of_has(s: Seq<IVec3>, known: Map<IVec3, u64>, j: int)
    requires
        0 <= j < s.len(),
        !known.contains_key(s[j]),
    ensures
        unknown_of(s, known).contains(s[j]),
    decreases s.len(),
{
    if j < s.len() - 1 {
        lemma_unknown_of_has(s.drop_last(), known, j);
        let u = unknown_of(s.drop_last(), known);
        let k = choose|k: int| 0 <= k < u.len() && u[k] == s[j];
        assert(unknown_of(s, known)[k] == s[j]);
    } else {
        let u = unknown_of(s, known);
        assert(u[u.len() - 1] == s[j]);
    }
}

/// The first-seen order holds exactly the positions of `s`.
proof fn lemma_first_seen_contains(s: Seq<IVec3>)
    ensures
        forall|p: IVec3| first_seen(s).contains(p) <==> s.contains(p),
    decreases s.len(),
{
    if s.len() > 0 {
        let w = s.drop_last();
        lemma_first_seen_contains(w);
        assert forall|p: IVec3| first_seen(s).contains(p) <==> s.contains(p) by {
            if w.contains(p) {
                let j = choose|j: int| 0 <= j < w.len() && w[j] == p;
                assert(s[j] == p);
            }
            if s.contains(p) && p != s.last() {
                let j = choose|j: int| 0 <= j < s.len() && s[j] == p;
                assert(w[j] == p);
            }
            if !w.contains(s.last()) {
                let f = first_seen(s);
                assert(f[f.len() - 1] == s.last());
                if f.contains(p) && !first_seen(w).contains(p) {
                    let k = choose|k: int| 0 <= k < f.len() && f[k] == p;
                    assert(k == f.len() - 1);
                }
                if first_seen(w).contains(p) {
                    let k = choose|k: int| 0 <= k < first_seen(w).len() && first_seen(w)[k] == p;
                    assert(f[k] == p);
                }
            } else {
                assert(s[s.len() - 1] == s.last());
            }
        }
    }
}

/// `visible` without repeats, in the order first seen.
fn dedup_positions(visible: &[IVec3]) -> (r: Vec<IVec3>)
    ensures
        r@ == first_seen(visible@),
        r@.no_duplicates(),
        forall|p: IVec3| r@.contains(p) <==> visible@.contains(p),
{
    let mut seen: Vec<IVec3> = Vec::new();
    let mut i: usize = 0;
    while i < visible.len()
        invariant
            i <= visible@.len(),
            seen@.no_duplicates(),
            forall|p: IVec3| seen@.contains(p) <==> visible@.subrange(0, i as int).contains(p),
            seen@ == first_seen(visible@.subrange(0, i as int)),
        decreases visible@.len() - i,
    {
        let p = visible[i];
        let ghost seen0 = seen@;
        let ghost prefix0 = visible@.subrange(0, i as int);
        if !contains_pos(&seen, p) {
            seen.push(p);
        }
        proof {
            let prefix = visible@.subrange(0, i + 1);
            assert(prefix =~= prefix0.push(p));
            assert(prefix.drop_last() == prefix0);
            if seen0.contains(p) {
                assert(seen@ == seen0);
            } else {
                assert(seen@ == seen0.push(p));
            }
            assert forall|q: IVec3| seen@.contains(q) <==> prefix.contains(q) by {
                assert(seen0.contains(q) <==> prefix0.contains(q));
            }
        }
        i = i + 1;
    }
    assert(visible@.subrange(0, visible@.len() as int) == visible@);
    seen
}

impl VoxelVolume {
    /// The known chunks: position to entity id.
    pub closed spec fn view(&self) -> Map<IVec3, u64> {
        pairs_map(self.chunks@)
    }

    /// No position is known twice.
    pub closed spec fn wf(&self) -> bool {
        keys_distinct(self.chunks@)
    }

    /// A volume that knows no chunk.
    pub fn new() -> (r: Self)
        ensures
            r.wf(),
            r.view() == Map::<IVec3, u64>::empty(),
    {
        let r = Self { chunks: Vec::new() };
        assert(r.view() =~= Map::<IVec3, u64>::empty());
        r
    }

    fn find(&self, pos: IVec3) -> (r: Option<usize>)
        requires
            self.wf(),
        ensures
            r is None ==> !self.view().contains_key(pos),
            r matches Some(i) ==> i < self.chunks@.len() && self.chunks@[i as int].0 == pos,
    {
        let mut i: usize = 0;
        while i < self.chunks.len()
            invariant
                i <= self.chunks@.len(),
                forall|j: int| 0 <= j < i ==> self.chunks@[j].0 != pos,
            decreases self.chunks@.len() - i,
        {
            if same_pos(self.chunks[i].0, pos) {
                return Some(i);
            }
            i = i + 1;
        }
        None
    }

    /// The entity that holds the chunk at `pos`, if the chunk is known.
    pub fn get(&self, pos: IVec3) -> (r: Option<u64>)
        requires
            self.wf(),
        ensures
            r == (if self.view().contains_key(pos) {
                Some(self.view()[pos])
            } else {
                None
            }),
    {
        match self.find(pos) {
            Some(i) => {
                proof {
                    lemma_pairs_map(self.chunks@, i as int);
                }
                Some(self.chunks[i].1)
            },
            None => None,
        }
    }

    /// Records that the chunk at `pos` is held by `entity`.
    pub fn insert(&mut self, pos: IVec3, entity: u64)
        requires
            old(self).wf(),
        ensures
            final(self).wf(),
            final(self).view() == old(self).view().insert(pos, entity),
    {
        let ghost s = self.chunks@;
        match self.find(pos) {
            Some(i) => {
                self.chunks.set(i, (pos, entity));
                proof {
                    let t = self.chunks@;
                    assert(keys_distinct(t)) by {
                        assert forall|a: int, b: int| 0 <= a < b < t.len() implies #[trigger] t[a].0
                            != #[trigger] t[b].0 by {
                            assert(s[a].0 != s[b].0);
                        }
                    }
                    assert forall|p: IVec3| #[trigger] pairs_map(t).contains_key(p) == old(
                        self,
                    ).view().insert(pos, entity).contains_key(p) by {
                        if has_key(t, p) {
                            let j = choose|j: int| 0 <= j < t.len() && #[trigger] t[j].0 == p;
                            assert(s[j].0 == p || j == i);
                        }
                        if has_key(s, p) {
                            let j = choose|j: int| 0 <= j < s.len() && #[trigger] s[j].0 == p;
                            assert(t[j].0 == p);
                        }
                    }
                    assert forall|p: IVec3| #[trigger] pairs_map(t).contains_key(p) implies pairs_map(
                        t,
                    )[p] == old(self).view().insert(pos, entity)[p] by {
                        let j = choose|j: int| 0 <= j < t.len() && #[trigger] t[j].0 == p;
                        lemma_pairs_map(t, j);
                        if j != i {
                            lemma_pairs_map(s, j);
                        }
                    }
                    assert(pairs_map(t) =~= old(self).view().insert(pos, entity));
                }
            },
            None => {
                self.chunks.push((pos, entity));
                proof {
                    let t = self.chunks@;
                    assert(keys_distinct(t)) by {
                        assert forall|a: int, b: int| 0 <= a < b < t.len() implies #[trigger] t[a].0
                            != #[trigger] t[b].0 by {
                            if b == t.len() - 1 {
                                if t[a].0 == pos {
                                    assert(s[a].0 == pos);
                                    assert(has_key(s, pos));
                                }
                            } else {
                                assert(s[a].0 != s[b].0);
                            }
                        }
                    }
                    assert forall|p: IVec3| #[trigger] pairs_map(t).contains_key(p) == old(
                        self,
                    ).view().insert(pos, entity).contains_key(p) by {
                        if has_key(t, p) {
                            let j = choose|j: int| 0 <= j < t.len() && #[trigger] t[j].0 == p;
                            if j < s.len() {
                                assert(s[j].0 == p);
                            }
                        }
                        if has_key(s, p) {
                            let j = choose|j: int| 0 <= j < s.len() && #[trigger] s[j].0 == p;
                            assert(t[j].0 == p);
                        }
                        assert(t[t.len() - 1].0 == pos);
                    }
                    assert forall|p: IVec3| #[trigger] pairs_map(t).contains_key(p) implies pairs_map(
                        t,
                    )[p] == old(self).view().insert(pos, entity)[p] by {
                        let j = choose|j: int| 0 <= j < t.len() && #[trigger] t[j].0 == p;
                        lemma_pairs_map(t, j);
                        if j < s.len() {
                            lemma_pairs_map(s, j);
                        }
                    }
                    assert(pairs_map(t) =~= old(self).view().insert(pos, entity));
                }
            },
        }
    }

    /// One visibility pass. Every visible position the volume does not know is to be
    /// generated (each once, in the order first seen); every known visible chunk is to
    /// be looked at for meshing; every known chunk that is no longer visible is dropped
    /// from the volume and its entity is to be despawned.
    pub fn active_chunks(&mut self, visible: &[IVec3]) -> (r: ActiveChunks)
        requires
            old(self).wf(),
        ensures
            final(self).wf(),
            final(self).view() == old(self).view().restrict(visible@.to_set()),
            r.spawn@ == first_seen(unknown_of(visible@, old(self).view())),
            r.spawn@.no_duplicates(),
            forall|p: IVec3|
                r.spawn@.contains(p) <==> visible@.contains(p) && !old(self).view().contains_key(p),
            forall|e: u64|
                r.check@.contains(e) <==> exists|p: IVec3|
                    visible@.contains(p) && #[trigger] old(self).view().contains_key(p) && old(
                        self,
                    ).view()[p] == e,
            forall|e: u64|
                r.despawn@.contains(e) <==> exists|p: IVec3|
                    !visible@.contains(p) && #[trigger] old(self).view().contains_key(p) && old(
                        self,
                    ).view()[p] == e,
    {
        let seen = dedup_positions(visible);
        let (spawn, check) = self.classify(&seen);
        let despawn = self.retain_visible(&seen);
        proof {
            assert(seen@.to_set() =~= visible@.to_set());
            lemma_unknown_first_seen(visible@, old(self).view());
        }
        ActiveChunks { spawn, check, despawn }
    }

    /// Splits distinct positions into those the volume does not know, in order, and the
    /// entities of those it knows.
    fn classify(&self, seen: &Vec<IVec3>) -> (r: (Vec<IVec3>, Vec<u64>))
        requires
            self.wf(),
            seen@.no_duplicates(),
        ensures
            r.0@ == unknown_of(seen@, self.view()),
            r.0@.no_duplicates(),
            forall|p: IVec3| r.0@.contains(p) <==> seen@.contains(p) && !self.view().contains_key(p),
            forall|e: u64|
                r.1@.contains(e) <==> exists|p: IVec3|
                    seen@.contains(p) && #[trigger] self.view().contains_key(p) && self.view()[p]
                        == e,
    {
        let ghost m = self.view();
        let mut spawn: Vec<IVec3> = Vec::new();
        let mut check: Vec<u64> = Vec::new();
        let mut i: usize = 0;
        while i < seen.len()
            invariant
                i <= seen@.len(),
                self.wf(),
                m == self.view(),
                seen@.no_duplicates(),
                forall|k: int| #![trigger spawn@[k]] 0 <= k < spawn@.len() ==> exists|l: int| 0 <= l < i && #[trigger] seen@[l] == spawn@[k],
                spawn@.no_duplicates(),
                spawn@ == unknown_of(seen@.subrange(0, i as int), m),
                forall|p: IVec3|
                    spawn@.contains(p) <==> seen@.subrange(0, i as int).contains(p) && !m.contains_key(p),
                forall|e: u64|
                    check@.contains(e) <==> exists|p: IVec3|
                        seen@.subrange(0, i as int).contains(p) && #[trigger] m.contains_key(p) && m[p] == e,
            decreases seen@.len() - i,
        {
            let p = seen[i];
            let ghost spawn0 = spawn@;
            let ghost check0 = check@;
            let ghost prefix0 = seen@.subrange(0, i as int);
            match self.find(p) {
                Some(k) => {
                    proof {
                        lemma_pairs_map(self.chunks@, k as int);
                    }
                    check.push(self.chunks[k].1);
                },
                None => {
                    proof {
                        assert(!spawn0.contains(p)) by {
                            if spawn0.contains(p) {
                                let k = choose|k: int| 0 <= k < spawn0.len() && spawn0[k] == p;
                                let l = choose|l: int| 0 <= l < i && #[trigger] seen@[l] == spawn0[k];
                                assert(seen@[l] == seen@[i as int]);
                            }
                        }
                    }
                    spawn.push(p);
                },
            }
            proof {
                let prefix = seen@.subrange(0, i + 1);
                assert(prefix =~= prefix0.push(p));
                assert(prefix.drop_last() == prefix0);
                assert forall|q: IVec3| spawn@.contains(q) <==> prefix.contains(q) && !m.contains_key(q) by {
                    assert(spawn0.contains(q) <==> prefix0.contains(q) && !m.contains_key(q));
                    if m.contains_key(p) {
                        assert(spawn@ == spawn0);
                    } else {
                        assert(spawn@ == spawn0.push(p));
                    }
                }
                assert forall|x: u64| check@.contains(x) <==> exists|q: IVec3|
                    prefix.contains(q) && #[trigger] m.contains_key(q) && m[q] == x by {
                    assert(check0.contains(x) <==> exists|q: IVec3|
                        prefix0.contains(q) && #[trigger] m.contains_key(q) && m[q] == x);
                    if m.contains_key(p) {
                        assert(check@ == check0.push(m[p]));
                    } else {
                        assert(check@ == check0);
                    }
                    if exists|q: IVec3| prefix.contains(q) && #[trigger] m.contains_key(q) && m[q] == x {
                        let q = choose|q: IVec3| prefix.contains(q) && #[trigger] m.contains_key(q) && m[q] == x;
                        if q != p {
                            assert(prefix0.contains(q));
                        }
                    }
                    if check0.contains(x) {
                        let q = choose|q: IVec3| prefix0.contains(q) && #[trigger] m.contains_key(q) && m[q] == x;
                        assert(prefix.contains(q));
                    }
                }
                assert forall|k: int| #![trigger spawn@[k]] 0 <= k < spawn@.len() implies exists|l: int| 0 <= l < i + 1 && #[trigger] seen@[l] == spawn@[k] by {
                    if k < spawn0.len() {
                        assert(spawn0[k] == spawn@[k]);
                        let l = choose|l: int| 0 <= l < i && #[trigger] seen@[l] == spawn0[k];
                    } else {
                        assert(seen@[i as int] == spawn@[k]);
                    }
                }
            }
            i = i + 1;
        }
        assert(seen@.subrange(0, seen@.len() as int) == seen@);
        (spawn, check)
    }

    /// Keeps the known chunks at the given positions; the entities of the others are
    /// returned.
    fn retain_visible(&mut self, seen: &Vec<IVec3>) -> (r: Vec<u64>)
        requires
            old(self).wf(),
        ensures
            final(self).wf(),
            final(self).view() == old(self).view().restrict(seen@.to_set()),
            forall|e: u64|
                r@.contains(e) <==> exists|p: IVec3|
                    !seen@.contains(p) && #[trigger] old(self).view().contains_key(p) && old(
                        self,
                    ).view()[p] == e,
    {
        let ghost s = self.chunks@;
        let ghost m = self.view();
        let mut despawn: Vec<u64> = Vec::new();
        let mut kept: Vec<(IVec3, u64)> = Vec::new();
        let mut j: usize = 0;
        while j < self.chunks.len()
            invariant
                j <= s.len(),
                self.chunks@ == s,
                keys_distinct(s),
                m == pairs_map(s),
                kept@ == keep_seen(s.subrange(0, j as int), seen@),
                forall|e: u64|
                    despawn@.contains(e) <==> exists|l: int|
                        0 <= l < j && !seen@.contains(s[l].0) && #[trigger] s[l].1 == e,
            decreases s.len() - j,
        {
            let (p, e) = self.chunks[j];
            let ghost despawn0 = despawn@;
            proof {
                assert(s.subrange(0, j + 1) =~= s.subrange(0, j as int).push((p, e)));
            }
            if contains_pos(seen, p) {
                kept.push((p, e));
            } else {
                despawn.push(e);
            }
            proof {
                let pre = s.subrange(0, j + 1);
                assert(pre.drop_last() =~= s.subrange(0, j as int));
                assert(pre.last() == (p, e));
            }
            proof {
                assert forall|x: u64| despawn@.contains(x) <==> exists|l: int|
                    0 <= l < j + 1 && !seen@.contains(s[l].0) && #[trigger] s[l].1 == x by {
                    if despawn@.contains(x) && !despawn0.contains(x) {
                        assert(s[j as int].1 == x);
                    }
                    if despawn0.contains(x) {
                        let k = choose|k: int| 0 <= k < despawn0.len() && despawn0[k] == x;
                        assert(despawn@[k] == x);
                    }
                    if exists|l: int| 0 <= l < j + 1 && !seen@.contains(s[l].0) && #[trigger] s[l].1 == x {
                        let l = choose|l: int| 0 <= l < j + 1 && !seen@.contains(s[l].0) && #[trigger] s[l].1 == x;
                        if l == j {
                            assert(despawn@[despawn@.len() - 1] == x);
                        }
                    }
                }
            }
            j = j + 1;
        }
        proof {
            assert(s.subrange(0, s.len() as int) == s);
            lemma_keep_seen(s, seen@);
            let t = kept@;
            let target = m.restrict(seen@.to_set());
            assert forall|p: IVec3| #[trigger] pairs_map(t).contains_key(p) == target.contains_key(p) by {
                if has_key(t, p) {
                    let k = choose|k: int| 0 <= k < t.len() && #[trigger] t[k].0 == p;
                    assert(t.contains(t[k]));
                    assert(s.contains(t[k]));
                    let l = choose|l: int| 0 <= l < s.len() && s[l] == t[k];
                    assert(s[l].0 == p);
                    assert(has_key(s, p));
                }
                if target.contains_key(p) {
                    let l = choose|l: int| 0 <= l < s.len() && #[trigger] s[l].0 == p;
                    assert(s.contains(s[l]));
                    assert(t.contains(s[l]));
                    let k = choose|k: int| 0 <= k < t.len() && t[k] == s[l];
                    assert(t[k].0 == p);
                }
            }
            assert forall|p: IVec3| #[trigger] pairs_map(t).contains_key(p) implies pairs_map(t)[p]
                == target[p] by {
                let k = choose|k: int| 0 <= k < t.len() && #[trigger] t[k].0 == p;
                lemma_pairs_map(t, k);
                assert(t.contains(t[k]));
                assert(s.contains(t[k]));
                let l = choose|l: int| 0 <= l < s.len() && s[l] == t[k];
                lemma_pairs_map(s, l);
            }
            assert(pairs_map(t) =~= target);
            assert forall|e: u64| despawn@.contains(e) <==> exists|p: IVec3|
                !seen@.contains(p) && #[trigger] m.contains_key(p) && m[p] == e by {
                if despawn@.contains(e) {
                    let l = choose|l: int| 0 <= l < s.len() && !seen@.contains(s[l].0) && #[trigger] s[l].1 == e;
                    lemma_pairs_map(s, l);
                }
                if exists|p: IVec3| !seen@.contains(p) && #[trigger] m.contains_key(p) && m[p] == e {
                    let p = choose|p: IVec3| !seen@.contains(p) && #[trigger] m.contains_key(p) && m[p] == e;
                    let l = choose|l: int| 0 <= l < s.len() && #[trigger] s[l].0 == p;
                    lemma_pairs_map(s, l);
                }
            }
        }
        self.chunks = kept;
        despawn
    }
}

} // verus!
