//! The chunk cache: which chunks are materialised, and the content each owns.
//!
//! One tick runs in two steps. [`LoadedChunks::reconcile`] evicts every loaded
//! chunk that is no longer desired and returns the desired chunks that still
//! have to be generated. The caller samples the noise field over each such
//! chunk's cells ([`crate::coords::chunk_cells`]) and hands the samples to
//! [`LoadedChunks::spawn_chunk`], which builds the chunk's content from them.

use vstd::prelude::*;
use crate::coords::{ChunkCoord, chunk_fits, cell_x, cell_y};
use crate::interest::DesiredChunks;
use crate::terrain::{Terrain, terrain_of, classify};

verus! {

/// One content handle owned by a loaded chunk: a drawn cell.
#[derive(Clone, Copy, Debug, PartialEq, Eq, Structural)]
pub struct ChunkMarker {
    /// The chunk that owns this item.
    pub chunk_coords: ChunkCoord,
    pub x: i32,
    pub y: i32,
    pub terrain: Terrain,
}

/// A materialised chunk and everything it owns.
pub struct ChunkRecord {
    pub coord: ChunkCoord,
    pub content: Vec<ChunkMarker>,
}

/// Why a chunk was not spawned.
#[derive(Clone, Copy, Debug, PartialEq, Eq, Structural)]
pub enum SpawnError {
    /// The chunk is already loaded; it is never spawned twice.
    AlreadyLoaded,
    /// The chunk lies beyond the world bound.
    OutOfBounds,
    /// The samples do not cover the chunk's cells one for one.
    SampleCount,
    /// The cache holds as many chunks as it may; retried on a later tick.
    Budget,
}

/// What one reconciliation did and what it leaves to do.
pub struct TickPlan {
    /// Chunks destroyed, with all their content.
    pub evicted: Vec<ChunkCoord>,
    /// Desired chunks within the world bound that are not loaded yet.
    pub to_spawn: Vec<ChunkCoord>,
}

/// `c` lies within `bound` chunks of the origin on both axes.
pub open spec fn within_bound(c: ChunkCoord, bound: int) -> bool {
    -bound <= c.x <= bound && -bound <= c.y <= bound
}

/// The content generated for chunk `c` from one noise sample per cell.
pub open spec fn chunk_content(c: ChunkCoord, n: int, samples: Seq<i32>) -> Seq<ChunkMarker> {
    Seq::new(
        (n * n) as nat,
        |k: int|
            ChunkMarker {
                chunk_coords: c,
                x: cell_x(c, n, k) as i32,
                y: cell_y(c, n, k) as i32,
                terrain: terrain_of(samples[k] as int),
            },
    )
}

/// Loaded chunks that a reconciliation against `desired` destroys.
pub open spec fn evictions(loaded: Set<ChunkCoord>, desired: Set<ChunkCoord>) -> Set<ChunkCoord> {
    loaded.difference(desired)
}

/// Chunks that a reconciliation against `desired` asks to generate.
pub open spec fn spawns(loaded: Set<ChunkCoord>, desired: Set<ChunkCoord>, bound: int) -> Set<
    ChunkCoord,
> {
    desired.filter(|c: ChunkCoord| !loaded.contains(c) && within_bound(c, bound))
}

/// The loaded set once a reconciliation and every spawn it asked for are done.
pub open spec fn after_tick(loaded: Set<ChunkCoord>, desired: Set<ChunkCoord>, bound: int) -> Set<
    ChunkCoord,
> {
    loaded.intersect(desired).union(spawns(loaded, desired, bound))
}

/// The set of chunks that records `rs` hold.
pub open spec fn coords_of(rs: Seq<ChunkRecord>) -> Set<ChunkCoord> {
    Set::new(|c: ChunkCoord| exists|i: int| 0 <= i < rs.len() && (#[trigger] rs[i]).coord == c)
}

/// The set of chunk coordinates listed in `v`.
pub open spec fn coord_set(v: Seq<ChunkCoord>) -> Set<ChunkCoord> {
    Set::new(|c: ChunkCoord| v.contains(c))
}

/// Owns the loaded chunks.
pub struct LoadedChunks {
    records: Vec<ChunkRecord>,
    chunk_size: i32,
    world_bound: i32,
    max_chunks: usize,
}

impl LoadedChunks {
    pub closed spec fn records(self) -> Seq<ChunkRecord> {
        self.records@
    }

    /// Cells along one side of a chunk.
    pub closed spec fn size(self) -> int {
        self.chunk_size as int
    }

    /// Chunks beyond this distance from the origin, on either axis, never load.
    pub closed spec fn bound(self) -> int {
        self.world_bound as int
    }

    /// The most chunks that may be loaded at once.
    pub closed spec fn capacity(self) -> nat {
        self.max_chunks as nat
    }

    /// The loaded set.
    pub open spec fn loaded(self) -> Set<ChunkCoord> {
        coords_of(self.records())
    }

    /// Some content item of some loaded chunk refers to chunk `c`.
    pub open spec fn holds_content_for(self, c: ChunkCoord) -> bool {
        exists|i: int, k: int|
            0 <= i < self.records().len() && 0 <= k < self.records()[i].content@.len()
                && (#[trigger] self.records()[i].content@[k]).chunk_coords == c
    }

    /// The content that loaded chunk `c` owns.
    pub open spec fn content_of(self, c: ChunkCoord) -> Seq<ChunkMarker> {
        let i = choose|i: int| 0 <= i < self.records().len() && (#[trigger] self.records()[i]).coord == c;
        self.records()[i].content@
    }

    /// Sizes keep every cell of an in-bound chunk, and a chunk's cell count,
    /// within machine integers.
    pub open spec fn sizes_fit(n: int, bound: int) -> bool {
        &&& n > 0
        &&& bound >= 0
        &&& (bound + 1) * n <= i32::MAX
        &&& n * n <= usize::MAX
    }

    /// The cache's invariant: one record per loaded chunk, each within the
    /// bound and owning one item per cell, every item naming its owner.
    pub open spec fn wf(self) -> bool {
        &&& Self::sizes_fit(self.size(), self.bound())
        &&& self.records().len() <= self.capacity()
        &&& forall|i: int, j: int|
            0 <= i < self.records().len() && 0 <= j < self.records().len() && i != j
                ==> (#[trigger] self.records()[i]).coord != (#[trigger] self.records()[j]).coord
        &&& forall|i: int|
            0 <= i < self.records().len() ==> within_bound(
                (#[trigger] self.records()[i]).coord,
                self.bound(),
            ) && self.records()[i].content@.len() == self.size() * self.size()
        &&& forall|i: int, k: int|
            0 <= i < self.records().len() && 0 <= k < self.records()[i].content@.len()
                ==> (#[trigger] self.records()[i].content@[k]).chunk_coords == self.records()[i].coord
    }

    /// What [`LoadedChunks::spawn_chunk`] returns for `c` and `samples`.
    pub open spec fn spawn_outcome(self, c: ChunkCoord, samples: Seq<i32>) -> Result<(), SpawnError> {
        if self.loaded().contains(c) {
            Err(SpawnError::AlreadyLoaded)
        } else if !within_bound(c, self.bound()) {
            Err(SpawnError::OutOfBounds)
        } else if samples.len() != self.size() * self.size() {
            Err(SpawnError::SampleCount)
        } else if self.records().len() >= self.capacity() {
            Err(SpawnError::Budget)
        } else {
            Ok(())
        }
    }

    /// An empty cache for chunks of `chunk_size` cells a side, loading only
    /// chunks within `world_bound` of the origin, at most `max_chunks` at once.
    pub fn new(chunk_size: i32, world_bound: i32, max_chunks: usize) -> (cache: LoadedChunks)
        requires
            Self::sizes_fit(chunk_size as int, world_bound as int),
        ensures
            cache.wf(),
            cache.loaded() == Set::<ChunkCoord>::empty(),
            cache.size() == chunk_size,
            cache.bound() == world_bound,
            cache.capacity() == max_chunks,
    {
        let cache = LoadedChunks { records: Vec::new(), chunk_size, world_bound, max_chunks };
        assert(cache.loaded() =~= Set::<ChunkCoord>::empty());
        cache
    }

    pub fn chunk_size(&self) -> (n: i32)
        ensures
            n == self.size(),
    {
        self.chunk_size
    }

    pub fn world_bound(&self) -> (b: i32)
        ensures
            b == self.bound(),
    {
        self.world_bound
    }

    /// Number of loaded chunks.
    pub fn loaded_count(&self) -> (n: usize)
        requires
            self.wf(),
        ensures
            n == self.loaded().len(),
    {
        proof {
            self.lemma_loaded_len();
        }
        self.records.len()
    }

    /// Position of chunk `c` among the records, if it is loaded.
    fn find(&self, c: ChunkCoord) -> (r: Option<usize>)
        ensures
            match r {
                Some(i) => i < self.records().len() && self.records()[i as int].coord == c,
                None => !self.loaded().contains(c),
            },
    {
        let mut i: usize = 0;
        while i < self.records.len()
            invariant
                0 <= i <= self.records().len(),
                forall|j: int| 0 <= j < i ==> (#[trigger] self.records()[j]).coord != c,
            decreases self.records().len() - i,
        {
            if self.records[i].coord == c {
                return Some(i);
            }
            i = i + 1;
        }
        None
    }

    /// Whether chunk `c` is loaded.
    pub fn is_loaded(&self, c: ChunkCoord) -> (b: bool)
        ensures
            b == self.loaded().contains(c),
    {
        self.find(c).is_some()
    }

    /// The content owned by chunk `c`, if it is loaded.
    pub fn content(&self, c: ChunkCoord) -> (r: Option<&Vec<ChunkMarker>>)
        requires
            self.wf(),
        ensures
            match r {
                Some(v) => self.loaded().contains(c) && v@ == self.content_of(c),
                None => !self.loaded().contains(c),
            },
    {
        match self.find(c) {
            Some(i) => {
                proof {
                    self.lemma_content_of(i as int);
                }
                Some(&self.records[i].content)
            },
            None => None,
        }
    }

    /// The loaded chunks, each once.
    pub fn loaded_coords(&self) -> (v: Vec<ChunkCoord>)
        requires
            self.wf(),
        ensures
            v@.no_duplicates(),
            coord_set(v@) == self.loaded(),
    {
        let mut v: Vec<ChunkCoord> = Vec::new();
        let mut i: usize = 0;
        while i < self.records.len()
            invariant
                self.wf(),
                0 <= i <= self.records().len(),
                v@.len() == i,
                forall|j: int| 0 <= j < i ==> #[trigger] v@[j] == self.records()[j].coord,
            decreases self.records().len() - i,
        {
            v.push(self.records[i].coord);
            i = i + 1;
        }
        assert(coord_set(v@) =~= self.loaded()) by {
            assert forall|c: ChunkCoord| self.loaded().contains(c) implies v@.contains(c) by {
                let j = choose|j: int| 0 <= j < self.records().len() && (#[trigger] self.records()[j]).coord == c;
                assert(v@[j] == c);
            }
        }
        v
    }

    /// Number of content items, over all loaded chunks, that refer to chunk `c`.
    pub fn items_referencing(&self, c: ChunkCoord) -> (n: usize)
        requires
            self.wf(),
        ensures
            n == 0 <==> !self.holds_content_for(c),
    {
        match self.find(c) {
            Some(i) => {
                let len = self.records[i].content.len();
                proof {
                    let nn = self.size();
                    assert(nn * nn > 0) by (nonlinear_arith)
                        requires
                            nn > 0,
                    ;
                    assert(self.records()[i as int].content@[0].chunk_coords == c);
                }
                len
            },
            None => {
                proof {
                    if self.holds_content_for(c) {
                        let (i, k) = choose|i: int, k: int|
                            0 <= i < self.records().len() && 0 <= k
                                < self.records()[i].content@.len() && (#[trigger] self.records()[i].content@[k]).chunk_coords
                                == c;
                        assert(self.records()[i].coord == c);
                    }
                }
                0
            },
        }
    }

    /// Whether chunk `c` lies within the world bound.
    pub fn in_world(&self, c: ChunkCoord) -> (b: bool)
        ensures
            b == within_bound(c, self.bound()),
    {
        let b = self.world_bound as i64;
        -b <= c.x as i64 && c.x as i64 <= b && -b <= c.y as i64 && c.y as i64 <= b
    }

    /// Materialises chunk `c`: one content item per cell, the `k`-th cell of
    /// [`crate::coords::chunk_cells`] classified from `samples[k]`, the noise
    /// in thousandths at that cell.
    pub fn spawn_chunk(&mut self, c: ChunkCoord, samples: &Vec<i32>) -> (r: Result<(), SpawnError>)
        requires
            old(self).wf(),
        ensures
            final(self).wf(),
            r == old(self).spawn_outcome(c, samples@),
            final(self).size() == old(self).size(),
            final(self).bound() == old(self).bound(),
            final(self).capacity() == old(self).capacity(),
            r is Ok ==> final(self).loaded() == old(self).loaded().insert(c),
            r is Ok ==> final(self).content_of(c) == chunk_content(c, old(self).size(), samples@),
            r is Ok ==> forall|d: ChunkCoord|
                #[trigger] old(self).loaded().contains(d) ==> final(self).content_of(d)
                    == old(self).content_of(d),
            r is Err ==> final(self).records() == old(self).records(),
    {
        if self.is_loaded(c) {
            return Err(SpawnError::AlreadyLoaded);
        }
        if !self.in_world(c) {
            return Err(SpawnError::OutOfBounds);
        }
        let n = self.chunk_size as i64;
        let b = self.world_bound as i64;
        proof {
            assert(0 < n * n <= usize::MAX && n * n <= i64::MAX) by (nonlinear_arith)
                requires
                    0 < n <= i32::MAX,
                    n * n <= usize::MAX,
            ;
        }
        let total: i64 = n * n;
        if samples.len() != total as usize {
            return Err(SpawnError::SampleCount);
        }
        if self.records.len() >= self.max_chunks {
            return Err(SpawnError::Budget);
        }
        proof {
            let bb = b as int;
            let nn = n as int;
            assert(chunk_fits(c, nn)) by (nonlinear_arith)
                requires
                    nn > 0,
                    bb >= 0,
                    (bb + 1) * nn <= i32::MAX,
                    -bb <= c.x <= bb,
                    -bb <= c.y <= bb,
            ;
        }
        let ghost want = chunk_content(c, n as int, samples@);
        let mut content: Vec<ChunkMarker> = Vec::new();
        let mut k: i64 = 0;
        while k < total
            invariant
                n == self.size(),
                n > 0,
                total == n * n,
                total == samples@.len(),
                total <= usize::MAX,
                chunk_fits(c, n as int),
                want == chunk_content(c, n as int, samples@),
                0 <= k <= total,
                content@.len() == k,
                forall|j: int| 0 <= j < k ==> #[trigger] content@[j] == want[j],
            decreases total - k,
        {
            proof {
                assert(0 <= k / n < n && 0 <= k % n < n) by (nonlinear_arith)
                    requires
                        0 <= k < n * n,
                        n > 0,
                ;
            }
            let x = (c.x as i64 * n + k / n) as i32;
            let y = (c.y as i64 * n + k % n) as i32;
            let terrain = classify(samples[k as usize]);
            let item = ChunkMarker { chunk_coords: c, x, y, terrain };
            assert(item == want[k as int]);
            content.push(item);
            k = k + 1;
        }
        assert(content@ =~= want);
        let ghost before = *self;
        self.records.push(ChunkRecord { coord: c, content });
        proof {
            let last = self.records().len() - 1;
            assert(self.records()[last].coord == c);
            assert forall|i: int| 0 <= i < last implies self.records()[i] == before.records()[i] by {}
            assert(self.loaded() =~= before.loaded().insert(c)) by {
                assert forall|d: ChunkCoord| before.loaded().contains(d) implies self.loaded().contains(d) by {
                    let j = choose|j: int| 0 <= j < before.records().len() && (#[trigger] before.records()[j]).coord == d;
                    assert(self.records()[j].coord == d);
                }
                assert forall|d: ChunkCoord| self.loaded().contains(d) && d != c implies before.loaded().contains(d) by {
                    let j = choose|j: int| 0 <= j < self.records().len() && (#[trigger] self.records()[j]).coord == d;
                    assert(before.records()[j].coord == d);
                }
            }
            assert(self.wf());
            self.lemma_content_of(last);
            assert forall|d: ChunkCoord| #[trigger] before.loaded().contains(d) implies self.content_of(d)
                == before.content_of(d) by {
                let j = choose|j: int| 0 <= j < before.records().len() && (#[trigger] before.records()[j]).coord == d;
                before.lemma_content_of(j);
                self.lemma_content_of(j);
            }
        }
        Ok(())
    }

    /// Reconciles the loaded set with `desired`: destroys every loaded chunk
    /// that is not desired, with all its content, and lists the desired chunks
    /// within the world bound that are not loaded. Chunks both loaded and
    /// desired are left as they are.
    pub fn reconcile(&mut self, desired: &DesiredChunks) -> (plan: TickPlan)
        requires
            old(self).wf(),
        ensures
            final(self).wf(),
            final(self).size() == old(self).size(),
            final(self).bound() == old(self).bound(),
            final(self).capacity() == old(self).capacity(),
            final(self).loaded() == old(self).loaded().intersect(coord_set(desired.chunks@)),
            forall|c: ChunkCoord| #[trigger]
                final(self).loaded().contains(c) ==> final(self).content_of(c) == old(
                    self,
                ).content_of(c),
            forall|c: ChunkCoord|
                !coord_set(desired.chunks@).contains(c) ==> !(#[trigger] final(self).holds_content_for(c)),
            plan.evicted@.no_duplicates(),
            coord_set(plan.evicted@) == evictions(old(self).loaded(), coord_set(desired.chunks@)),
            plan.to_spawn@.no_duplicates(),
            coord_set(plan.to_spawn@) == spawns(
                old(self).loaded(),
                coord_set(desired.chunks@),
                old(self).bound(),
            ),
    {
        let ghost before = *self;
        let ghost old_recs = self.records@;
        let ghost dset = coord_set(desired.chunks@);
        let mut kept: Vec<ChunkRecord> = Vec::new();
        let mut evicted: Vec<ChunkCoord> = Vec::new();
        let ghost mut kfrom: Seq<int> = Seq::empty();
        let ghost mut efrom: Seq<int> = Seq::empty();
        while self.records.len() > 0
            invariant
                before.wf(),
                old_recs == before.records(),
                dset == coord_set(desired.chunks@),
                self.chunk_size == before.chunk_size,
                self.world_bound == before.world_bound,
                self.max_chunks == before.max_chunks,
                self.records@.len() <= old_recs.len(),
                self.records@ == old_recs.subrange(0, self.records@.len() as int),
                kept@.len() == kfrom.len(),
                evicted@.len() == efrom.len(),
                kept@.len() + evicted@.len() + self.records@.len() == old_recs.len(),
                forall|k: int|
                    0 <= k < kfrom.len() ==> self.records@.len() <= #[trigger] kfrom[k]
                        < old_recs.len() && kept@[k] == old_recs[kfrom[k]] && dset.contains(
                        kept@[k].coord,
                    ),
                forall|a: int, b: int|
                    0 <= a < kfrom.len() && 0 <= b < kfrom.len() && a != b ==> #[trigger] kfrom[a]
                        != #[trigger] kfrom[b],
                forall|k: int|
                    0 <= k < efrom.len() ==> self.records@.len() <= #[trigger] efrom[k]
                        < old_recs.len() && evicted@[k] == old_recs[efrom[k]].coord
                        && !dset.contains(evicted@[k]),
                forall|a: int, b: int|
                    0 <= a < efrom.len() && 0 <= b < efrom.len() && a != b ==> #[trigger] efrom[a]
                        != #[trigger] efrom[b],
                forall|i: int|
                    self.records@.len() <= i < old_recs.len() ==> (dset.contains(
                        (#[trigger] old_recs[i]).coord,
                    ) ==> exists|k: int| 0 <= k < kfrom.len() && kfrom[k] == i) && (!dset.contains(
                        old_recs[i].coord,
                    ) ==> exists|k: int| 0 <= k < efrom.len() && efrom[k] == i),
            decreases self.records@.len(),
        {
            let ghost len = self.records@.len();
            let ghost prefix = self.records@;
            let r = self.records.pop().unwrap();
            proof {
                assert(prefix[len - 1] == old_recs[len - 1]);
                assert(self.records@ =~= old_recs.subrange(0, len - 1));
            }
            let ghost kfrom0 = kfrom;
            let ghost efrom0 = efrom;
            if contains_coord(&desired.chunks, r.coord) {
                proof {
                    kfrom = kfrom.push(len - 1);
                }
                kept.push(r);
                proof {
                    assert(kfrom[kfrom.len() - 1] == len - 1);
                }
            } else {
                proof {
                    assert(!dset.contains(r.coord));
                    efrom = efrom.push(len - 1);
                }
                evicted.push(r.coord);
                proof {
                    assert(efrom[efrom.len() - 1] == len - 1);
                }
            }
            proof {
                assert forall|i: int| len - 1 <= i < old_recs.len() implies (dset.contains(
                    (#[trigger] old_recs[i]).coord,
                ) ==> exists|k: int| 0 <= k < kfrom.len() && kfrom[k] == i) && (!dset.contains(
                    old_recs[i].coord,
                ) ==> exists|k: int| 0 <= k < efrom.len() && efrom[k] == i) by {
                    if i == len - 1 {
                        if dset.contains(old_recs[i].coord) {
                            assert(kfrom[kfrom.len() - 1] == i);
                        } else {
                            assert(efrom[efrom.len() - 1] == i);
                        }
                    } else if dset.contains(old_recs[i].coord) {
                        let k = choose|k: int| 0 <= k < kfrom0.len() && kfrom0[k] == i;
                        assert(kfrom[k] == i);
                    } else {
                        let k = choose|k: int| 0 <= k < efrom0.len() && efrom0[k] == i;
                        assert(efrom[k] == i);
                    }
                }
            }
        }
        self.records = kept;
        proof {
            assert forall|i: int, j: int|
                0 <= i < self.records().len() && 0 <= j < self.records().len() && i != j implies (
                #[trigger] self.records()[i]).coord != (#[trigger] self.records()[j]).coord by {
                assert(old_recs[kfrom[i]].coord != old_recs[kfrom[j]].coord);
            }
            assert forall|i: int| 0 <= i < self.records().len() implies within_bound(
                (#[trigger] self.records()[i]).coord,
                self.bound(),
            ) && self.records()[i].content@.len() == self.size() * self.size() by {
                assert(self.records()[i] == old_recs[kfrom[i]]);
            }
            assert forall|i: int, k: int|
                0 <= i < self.records().len() && 0 <= k < self.records()[i].content@.len() implies (
                #[trigger] self.records()[i].content@[k]).chunk_coords == self.records()[i].coord by {
                assert(self.records()[i] == old_recs[kfrom[i]]);
            }
            before.lemma_loaded_len();
            assert(self.wf());
            assert(self.loaded() =~= before.loaded().intersect(dset)) by {
                assert forall|c: ChunkCoord| self.loaded().contains(c) implies before.loaded().intersect(dset).contains(c) by {
                    let j = choose|j: int| 0 <= j < self.records().len() && (#[trigger] self.records()[j]).coord == c;
                    assert(old_recs[kfrom[j]].coord == c);
                }
                assert forall|c: ChunkCoord| before.loaded().intersect(dset).contains(c) implies self.loaded().contains(c) by {
                    let i = choose|i: int| 0 <= i < old_recs.len() && (#[trigger] old_recs[i]).coord == c;
                    let k = choose|k: int| 0 <= k < kfrom.len() && kfrom[k] == i;
                    assert(self.records()[k].coord == c);
                }
            }
            assert forall|c: ChunkCoord| #[trigger] self.loaded().contains(c) implies self.content_of(c)
                == before.content_of(c) by {
                let j = choose|j: int| 0 <= j < self.records().len() && (#[trigger] self.records()[j]).coord == c;
                self.lemma_content_of(j);
                before.lemma_content_of(kfrom[j]);
            }
            assert forall|c: ChunkCoord| !dset.contains(c) implies !(#[trigger] self.holds_content_for(c)) by {
                if self.holds_content_for(c) {
                    let (i, k) = choose|i: int, k: int|
                        0 <= i < self.records().len() && 0 <= k < self.records()[i].content@.len()
                            && (#[trigger] self.records()[i].content@[k]).chunk_coords == c;
                    assert(self.records()[i].coord == c);
                    assert(old_recs[kfrom[i]] == self.records()[i]);
                }
            }
            assert(evicted@.no_duplicates()) by {
                assert forall|a: int, b: int| 0 <= a < evicted@.len() && 0 <= b < evicted@.len() && a != b
                    implies evicted@[a] != evicted@[b] by {
                    assert(old_recs[efrom[a]].coord != old_recs[efrom[b]].coord);
                }
            }
            assert(coord_set(evicted@) =~= evictions(before.loaded(), dset)) by {
                assert forall|c: ChunkCoord| coord_set(evicted@).contains(c) implies evictions(before.loaded(), dset).contains(c) by {
                    let k = choose|k: int| 0 <= k < evicted@.len() && evicted@[k] == c;
                    assert(old_recs[efrom[k]].coord == c);
                }
                assert forall|c: ChunkCoord| evictions(before.loaded(), dset).contains(c) implies coord_set(evicted@).contains(c) by {
                    let i = choose|i: int| 0 <= i < old_recs.len() && (#[trigger] old_recs[i]).coord == c;
                    let k = choose|k: int| 0 <= k < efrom.len() && efrom[k] == i;
                    assert(evicted@[k] == c);
                }
            }
        }
        let mut to_spawn: Vec<ChunkCoord> = Vec::new();
        let mut idx: usize = 0;
        while idx < desired.chunks.len()
            invariant
                self.wf(),
                self.loaded() == before.loaded().intersect(dset),
                self.world_bound == before.world_bound,
                dset == coord_set(desired.chunks@),
                0 <= idx <= desired.chunks@.len(),
                to_spawn@.no_duplicates(),
                forall|c: ChunkCoord|
                    #[trigger] to_spawn@.contains(c) <==> (exists|j: int|
                        0 <= j < idx && desired.chunks@[j] == c) && !before.loaded().contains(c)
                        && within_bound(c, before.bound()),
            decreases desired.chunks@.len() - idx,
        {
            let d = desired.chunks[idx];
            assert(dset.contains(d));
            if self.in_world(d) && !self.is_loaded(d) && !contains_coord(&to_spawn, d) {
                let ghost prev = to_spawn@;
                to_spawn.push(d);
                proof {
                    assert forall|c: ChunkCoord| #[trigger] to_spawn@.contains(c) <==> (prev.contains(c) || c == d) by {
                        if to_spawn@.contains(c) && c != d {
                            let j = choose|j: int| 0 <= j < to_spawn@.len() && to_spawn@[j] == c;
                            assert(prev[j] == c);
                        }
                        if prev.contains(c) {
                            let j = choose|j: int| 0 <= j < prev.len() && prev[j] == c;
                            assert(to_spawn@[j] == c);
                        }
                        if c == d {
                            assert(to_spawn@[prev.len() as int] == d);
                        }
                    }
                    assert forall|c: ChunkCoord| #[trigger] to_spawn@.contains(c) <==> (exists|j: int|
                        0 <= j < idx + 1 && desired.chunks@[j] == c) && !before.loaded().contains(c)
                        && within_bound(c, before.bound()) by {
                        if c == d {
                            assert(desired.chunks@[idx as int] == c);
                        }
                        if (exists|j: int| 0 <= j < idx + 1 && desired.chunks@[j] == c) && c != d {
                            let j = choose|j: int| 0 <= j < idx + 1 && desired.chunks@[j] == c;
                            assert(j < idx);
                        }
                    }
                }
            } else {
                proof {
                    assert forall|c: ChunkCoord| #[trigger] to_spawn@.contains(c) <==> (exists|j: int|
                        0 <= j < idx + 1 && desired.chunks@[j] == c) && !before.loaded().contains(c)
                        && within_bound(c, before.bound()) by {
                        if (exists|j: int| 0 <= j < idx + 1 && desired.chunks@[j] == c) && c != d {
                            let j = choose|j: int| 0 <= j < idx + 1 && desired.chunks@[j] == c;
                            assert(j < idx);
                        }
                        if c == d && !before.loaded().contains(c) && within_bound(c, before.bound()) {
                            assert(!self.loaded().contains(d));
                        }
                    }
                }
            }
            idx = idx + 1;
        }
        proof {
            assert(coord_set(to_spawn@) =~= spawns(before.loaded(), dset, before.bound())) by {
                assert forall|c: ChunkCoord| spawns(before.loaded(), dset, before.bound()).contains(c) implies
                    coord_set(to_spawn@).contains(c) by {
                    let j = choose|j: int| 0 <= j < desired.chunks@.len() && desired.chunks@[j] == c;
                    assert(to_spawn@.contains(c));
                }
            }
        }
        TickPlan { evicted, to_spawn }
    }

    proof fn lemma_loaded_len(&self)
        requires
            self.wf(),
        ensures
            self.loaded().len() == self.records().len(),
            self.loaded().finite(),
    {
        let coords = self.records().map_values(|r: ChunkRecord| r.coord);
        assert(coords.no_duplicates()) by {
            assert forall|i: int, j: int|
                0 <= i < coords.len() && 0 <= j < coords.len() && i != j implies coords[i]
                != coords[j] by {
                assert(self.records()[i].coord != self.records()[j].coord);
            }
        }
        assert(coords.to_set() =~= self.loaded()) by {
            assert forall|c: ChunkCoord| self.loaded().contains(c) implies coords.to_set().contains(c) by {
                let j = choose|j: int| 0 <= j < self.records().len() && (#[trigger] self.records()[j]).coord == c;
                assert(coords[j] == c);
            }
            assert forall|c: ChunkCoord| coords.to_set().contains(c) implies self.loaded().contains(c) by {
                let j = choose|j: int| 0 <= j < coords.len() && coords[j] == c;
                assert(self.records()[j].coord == c);
            }
        }
        coords.unique_seq_to_set();
    }

    proof fn lemma_content_of(&self, i: int)
        requires
            self.wf(),
            0 <= i < self.records().len(),
        ensures
            self.content_of(self.records()[i].coord) == self.records()[i].content@,
            self.loaded().contains(self.records()[i].coord),
    {
        let c = self.records()[i].coord;
        assert(self.records()[i].coord == c);
        let j = choose|j: int| 0 <= j < self.records().len() && (#[trigger] self.records()[j]).coord == c;
        assert(i == j);
    }
}

/// Once a reconciliation and every spawn it asked for are done, the loaded
/// set is exactly the desired chunks within the world bound.
pub proof fn lemma_tick_loads_desired(loaded: Set<ChunkCoord>, desired: Set<ChunkCoord>, bound: int)
    requires
        forall|c: ChunkCoord| #[trigger] loaded.contains(c) ==> within_bound(c, bound),
    ensures
        after_tick(loaded, desired, bound) == desired.filter(|c: ChunkCoord| within_bound(c, bound)),
{
    assert(after_tick(loaded, desired, bound) =~= desired.filter(
        |c: ChunkCoord| within_bound(c, bound),
    ));
}

/// A second reconciliation against the same desired set, after a complete
/// tick, destroys nothing and asks to spawn nothing.
pub proof fn lemma_reconcile_idempotent(loaded: Set<ChunkCoord>, desired: Set<ChunkCoord>, bound: int)
    ensures
        evictions(after_tick(loaded, desired, bound), desired) == Set::<ChunkCoord>::empty(),
        spawns(after_tick(loaded, desired, bound), desired, bound) == Set::<ChunkCoord>::empty(),
{
    assert(evictions(after_tick(loaded, desired, bound), desired) =~= Set::<ChunkCoord>::empty());
    assert(spawns(after_tick(loaded, desired, bound), desired, bound) =~= Set::<
        ChunkCoord,
    >::empty());
}

/// A loaded chunk is never asked to spawn again, whatever is desired.
pub proof fn lemma_loaded_not_respawned(
    loaded: Set<ChunkCoord>,
    desired: Set<ChunkCoord>,
    bound: int,
    c: ChunkCoord,
)
    requires
        loaded.contains(c),
    ensures
        !spawns(loaded, desired, bound).contains(c),
{
}

/// When every loaded chunk is desired, no content item refers to a chunk
/// outside the desired set.
pub proof fn lemma_no_orphaned_content(cache: LoadedChunks, desired: Set<ChunkCoord>)
    requires
        cache.wf(),
        cache.loaded().subset_of(desired),
    ensures
        forall|c: ChunkCoord| !desired.contains(c) ==> !(#[trigger] cache.holds_content_for(c)),
{
    assert forall|c: ChunkCoord| !desired.contains(c) implies !(#[trigger] cache.holds_content_for(c)) by {
        if cache.holds_content_for(c) {
            let (i, k) = choose|i: int, k: int|
                0 <= i < cache.records().len() && 0 <= k < cache.records()[i].content@.len()
                    && (#[trigger] cache.records()[i].content@[k]).chunk_coords == c;
            assert(cache.records()[i].coord == c);
            assert(cache.loaded().contains(c));
        }
    }
}

/// A chunk generated twice from the same samples, in two caches or before
/// and after an eviction, holds the same content, cell for cell.
pub proof fn lemma_regeneration_identical(
    first: LoadedChunks,
    second: LoadedChunks,
    c: ChunkCoord,
    samples: Seq<i32>,
)
    requires
        first.size() == second.size(),
        first.content_of(c) == chunk_content(c, first.size(), samples),
        second.content_of(c) == chunk_content(c, second.size(), samples),
    ensures
        first.content_of(c) == second.content_of(c),
        forall|k: int|
            0 <= k < first.content_of(c).len() ==> (#[trigger] first.content_of(c)[k]).terrain
                == terrain_of(samples[k] as int),
{
}

/// Whether `v` lists chunk `c`.
pub fn contains_coord(v: &Vec<ChunkCoord>, c: ChunkCoord) -> (b: bool)
    ensures
        b == v@.contains(c),
{
    let mut i: usize = 0;
    while i < v.len()
        invariant
            0 <= i <= v@.len(),
            forall|j: int| 0 <= j < i ==> v@[j] != c,
        decreases v@.len() - i,
    {
        if v[i] == c {
            return true;
        }
        i = i + 1;
    }
    false
}

} // verus!
