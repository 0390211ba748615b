//! The two-tier pathfinding cache: resolved paths and resolved point
//! passability, keyed by cell coordinates and quantized agent size,
//! version-stamped against terrain edits, spatially indexed for targeted
//! invalidation, and evicted by last access time.
//!
//! Both tiers are association lists with distinct keys; the spatial index
//! maps a cell to the keys of every cached path whose footprint touches it.
//! Time enters only through the explicit `clock_ms` field, advanced by the
//! owner.

use vstd::prelude::*;

verus! {

use crate::grid::TerrainChanges;

/// Key of a cached path: start cell, goal cell, quantized size.
#[derive(PartialEq, Eq, Structural, Clone, Copy, Debug, Hash)]
pub struct PathCacheKey {
    pub start_x: i32,
    pub start_y: i32,
    pub goal_x: i32,
    pub goal_y: i32,
    pub size_tier: u8,
}

/// Key of a cached passability answer: cell and quantized size.
#[derive(PartialEq, Eq, Structural, Clone, Copy, Debug, Hash)]
pub struct PassabilityCacheKey {
    pub tile_x: i32,
    pub tile_y: i32,
    pub size_tier: u8,
}

/// A cached path answer: the waypoints (or `None` for "no path"), the
/// terrain version it was computed at, when it was last touched, and the
/// cells its clearance footprint covers.
pub struct CachedPathResult {
    pub path: Option<Vec<(i64, i64)>>,
    pub terrain_version: u64,
    pub last_accessed: u64,
    pub affected_tiles: Vec<(u32, u32)>,
}

/// A cached passability answer.
#[derive(Clone, Copy)]
pub struct CachedPassability {
    pub is_passable: bool,
    pub terrain_version: u64,
    pub last_accessed: u64,
}

/// Hit, miss and invalidation counters, and the entry count.
pub struct CacheStats {
    pub path_cache_hits: u64,
    pub path_cache_misses: u64,
    pub passability_cache_hits: u64,
    pub passability_cache_misses: u64,
    pub terrain_invalidations: u64,
    pub cache_size: usize,
}

impl Default for CacheStats {
    fn default() -> (r: CacheStats)
        ensures
            r.path_cache_hits == 0,
            r.path_cache_misses == 0,
            r.passability_cache_hits == 0,
            r.passability_cache_misses == 0,
            r.terrain_invalidations == 0,
            r.cache_size == 0,
    {
        CacheStats {
            path_cache_hits: 0,
            path_cache_misses: 0,
            passability_cache_hits: 0,
            passability_cache_misses: 0,
            terrain_invalidations: 0,
            cache_size: 0,
        }
    }
}

/// Whether `x` occurs in `s`.
pub open spec fn seq_has<T>(s: Seq<T>, x: T) -> bool {
    exists|i: int| 0 <= i < s.len() && s[i] == x
}

/// The position of `x` in `s` (meaningful when `x` occurs and keys are
/// distinct).
pub open spec fn seq_index_of<T>(s: Seq<T>, x: T) -> int {
    choose|i: int| 0 <= i < s.len() && s[i] == x
}

/// No element occurs twice.
pub open spec fn distinct_seq<T>(s: Seq<T>) -> bool {
    forall|i: int, j: int| 0 <= i < j < s.len() ==> s[i] != s[j]
}

/// The size bucket a raw agent size falls into: `size * 8 / 1000` rounded
/// to the nearest integer and clamped to a byte. Sizes are thousandths of
/// a tile, so sizes within a sixteenth of a tile of each other share a
/// bucket.
pub open spec fn spec_quantize_size(size: int) -> int {
    let q = (size * 8 + 500) / 1000;
    if q > 255 { 255int } else { q }
}

/// The cache key of a path request.
pub open spec fn spec_path_key(start: (i32, i32), goal: (i32, i32), size: int) -> PathCacheKey {
    PathCacheKey {
        start_x: start.0,
        start_y: start.1,
        goal_x: goal.0,
        goal_y: goal.1,
        size_tier: spec_quantize_size(size) as u8,
    }
}

/// The cache key of a passability request.
pub open spec fn spec_pass_key(tile_x: i32, tile_y: i32, size: int) -> PassabilityCacheKey {
    PassabilityCacheKey { tile_x, tile_y, size_tier: spec_quantize_size(size) as u8 }
}

/// The pathfinding cache; see the module documentation.
pub struct PathfindingCache {
    pub path_keys: Vec<PathCacheKey>,
    pub path_vals: Vec<CachedPathResult>,
    pub pass_keys: Vec<PassabilityCacheKey>,
    pub pass_vals: Vec<CachedPassability>,
    pub spatial_keys: Vec<(u32, u32)>,
    pub spatial_vals: Vec<Vec<PathCacheKey>>,
    pub terrain_version: u64,
    pub stats: CacheStats,
    pub clock_ms: u64,
}

impl PathfindingCache {
    /// The cached path entry under a key, if any.
    pub open spec fn spec_path_lookup(&self, k: PathCacheKey) -> Option<CachedPathResult> {
        if seq_has(self.path_keys@, k) {
            Some(self.path_vals@[seq_index_of(self.path_keys@, k)])
        } else {
            None
        }
    }

    /// The cached passability entry under a key, if any.
    pub open spec fn spec_pass_lookup(&self, k: PassabilityCacheKey) -> Option<CachedPassability> {
        if seq_has(self.pass_keys@, k) {
            Some(self.pass_vals@[seq_index_of(self.pass_keys@, k)])
        } else {
            None
        }
    }

    /// The key list of the spatial index under a cell, if any.
    pub open spec fn spec_spatial_lookup(&self, c: (u32, u32)) -> Option<Seq<PathCacheKey>> {
        if seq_has(self.spatial_keys@, c) {
            Some(self.spatial_vals@[seq_index_of(self.spatial_keys@, c)]@)
        } else {
            None
        }
    }

    /// Internal consistency: parallel lists line up, keys are distinct, and
    /// the spatial index and the path tier point at each other: a path
    /// entry's footprint cells each index its key, and every indexed key is
    /// a cached path whose footprint holds that cell.
    pub open spec fn wf(&self) -> bool {
        &&& self.path_keys@.len() == self.path_vals@.len()
        &&& distinct_seq(self.path_keys@)
        &&& self.pass_keys@.len() == self.pass_vals@.len()
        &&& distinct_seq(self.pass_keys@)
        &&& self.spatial_keys@.len() == self.spatial_vals@.len()
        &&& distinct_seq(self.spatial_keys@)
        &&& forall|i: int, t: int|
            0 <= i < self.path_vals@.len()
                && 0 <= t < self.path_vals@[i].affected_tiles@.len()
                ==> {
                    let c = #[trigger] self.path_vals@[i].affected_tiles@[t];
                    &&& seq_has(self.spatial_keys@, c)
                    &&& seq_has(
                        self.spatial_vals@[seq_index_of(self.spatial_keys@, c)]@,
                        self.path_keys@[i],
                    )
                }
        &&& forall|ci: int, j: int|
            0 <= ci < self.spatial_vals@.len()
                && 0 <= j < self.spatial_vals@[ci]@.len()
                ==> {
                    let k = #[trigger] self.spatial_vals@[ci]@[j];
                    &&& seq_has(self.path_keys@, k)
                    &&& self.path_vals@[seq_index_of(self.path_keys@, k)]
                        .affected_tiles@.contains(self.spatial_keys@[ci])
                }
        &&& forall|ci: int| 0 <= ci < self.spatial_vals@.len()
            ==> (#[trigger] self.spatial_vals@[ci])@.len() > 0
    }

    /// A fresh, empty cache at terrain version 1.
    pub fn new() -> (r: PathfindingCache)
        ensures
            r.wf(),
            r.terrain_version == 1,
            r.clock_ms == 0,
            forall|k: PathCacheKey| r.spec_path_lookup(k) is None,
            forall|k: PassabilityCacheKey| r.spec_pass_lookup(k) is None,
            r.stats.path_cache_hits == 0 && r.stats.path_cache_misses == 0,
            r.stats.passability_cache_hits == 0 && r.stats.passability_cache_misses == 0,
            r.stats.terrain_invalidations == 0 && r.stats.cache_size == 0,
    {
        PathfindingCache {
            path_keys: Vec::new(),
            path_vals: Vec::new(),
            pass_keys: Vec::new(),
            pass_vals: Vec::new(),
            spatial_keys: Vec::new(),
            spatial_vals: Vec::new(),
            terrain_version: 1,
            stats: CacheStats::default(),
            clock_ms: 0,
        }
    }

    /// Advances the cache's clock; last-access stamps and expiry both read
    /// this clock.
    pub fn set_clock(&mut self, now_ms: u64)
        ensures
            *final(self) == (PathfindingCache { clock_ms: now_ms, ..*old(self) }),
    {
        self.clock_ms = now_ms;
    }

    /// The size bucket of a raw agent size (thousandths of a tile).
    pub fn quantize_size(&self, size: u32) -> (r: u8)
        requires
            size <= crate::clearance::MAX_AGENT_SIZE,
        ensures
            r as int == spec_quantize_size(size as int),
    {
        let q: u32 = (size * 8 + 500) / 1000;
        if q > 255 { 255 } else { q as u8 }
    }

    /// The cached passability answer under a cell and size, provided it was
    /// stored at the current terrain version; a stale entry is evicted and
    /// reported as absent. Hits refresh the entry's access time; the hit
    /// and miss counters record the outcome (saturating).
    pub fn get_passability(&mut self, tile_x: i32, tile_y: i32, size: u32) -> (r: Option<bool>)
        requires
            old(self).wf(),
            size <= crate::clearance::MAX_AGENT_SIZE,
        ensures
            final(self).wf(),
            ({
                let k = spec_pass_key(tile_x, tile_y, size as int);
                match old(self).spec_pass_lookup(k) {
                    Some(e) => {
                        if e.terrain_version == old(self).terrain_version {
                            &&& r == Some(e.is_passable)
                            &&& final(self).spec_pass_lookup(k) == Some(CachedPassability {
                                last_accessed: old(self).clock_ms, ..e
                            })
                            &&& final(self).stats == CacheStats {
                                passability_cache_hits: spec_bump(old(self).stats.passability_cache_hits),
                                ..old(self).stats
                            }
                        } else {
                            &&& r is None
                            &&& final(self).spec_pass_lookup(k) is None
                            &&& final(self).stats == CacheStats {
                                passability_cache_misses: spec_bump(old(self).stats.passability_cache_misses),
                                ..old(self).stats
                            }
                        }
                    },
                    None => {
                        &&& r is None
                        &&& final(self).spec_pass_lookup(k) is None
                        &&& final(self).stats == CacheStats {
                            passability_cache_misses: spec_bump(old(self).stats.passability_cache_misses),
                            ..old(self).stats
                        }
                    },
                }
            }),
            forall|k2: PassabilityCacheKey| k2 != spec_pass_key(tile_x, tile_y, size as int)
                ==> final(self).spec_pass_lookup(k2) == old(self).spec_pass_lookup(k2),
            forall|k2: PathCacheKey|
                final(self).spec_path_lookup(k2) == old(self).spec_path_lookup(k2),
            final(self).terrain_version == old(self).terrain_version,
            final(self).clock_ms == old(self).clock_ms,
    {
        let tier = self.quantize_size(size);
        let k = PassabilityCacheKey { tile_x, tile_y, size_tier: tier };
        let idx = find_pass_key(&self.pass_keys, k);
        match idx {
            Some(i) => {
                proof {
                    lemma_index_unique(self.pass_keys@, k, i as int);
                }
                if self.pass_vals[i].terrain_version == self.terrain_version {
                    let answer = self.pass_vals[i].is_passable;
                    let version = self.pass_vals[i].terrain_version;
                    self.pass_vals[i] = CachedPassability {
                        is_passable: answer,
                        terrain_version: version,
                        last_accessed: self.clock_ms,
                    };
                    self.stats.passability_cache_hits = bump(self.stats.passability_cache_hits);
                    proof {
                        lemma_update_value(
                            old(self).pass_keys@, old(self).pass_vals@, self.pass_vals@, i as int);
                    }
                    Some(answer)
                } else {
                    self.pass_keys.remove(i);
                    self.pass_vals.remove(i);
                    self.stats.passability_cache_misses = bump(self.stats.passability_cache_misses);
                    proof {
                        lemma_remove_entry(old(self).pass_keys@, old(self).pass_vals@, i as int);
                    }
                    None
                }
            },
            None => {
                self.stats.passability_cache_misses = bump(self.stats.passability_cache_misses);
                None
            },
        }
    }

    /// Stores a passability answer under the cell and size, stamped with
    /// the current terrain version and clock; an existing entry under the
    /// same key is replaced.
    pub fn cache_passability(&mut self, tile_x: i32, tile_y: i32, size: u32, is_passable: bool)
        requires
            old(self).wf(),
            size <= crate::clearance::MAX_AGENT_SIZE,
        ensures
            final(self).wf(),
            final(self).spec_pass_lookup(spec_pass_key(tile_x, tile_y, size as int))
                == Some(CachedPassability {
                    is_passable,
                    terrain_version: old(self).terrain_version,
                    last_accessed: old(self).clock_ms,
                }),
            forall|k2: PassabilityCacheKey| k2 != spec_pass_key(tile_x, tile_y, size as int)
                ==> final(self).spec_pass_lookup(k2) == old(self).spec_pass_lookup(k2),
            forall|k2: PathCacheKey|
                final(self).spec_path_lookup(k2) == old(self).spec_path_lookup(k2),
            final(self).terrain_version == old(self).terrain_version,
            final(self).clock_ms == old(self).clock_ms,
            final(self).stats == old(self).stats,
    {
        let tier = self.quantize_size(size);
        let k = PassabilityCacheKey { tile_x, tile_y, size_tier: tier };
        let entry = CachedPassability {
            is_passable,
            terrain_version: self.terrain_version,
            last_accessed: self.clock_ms,
        };
        let idx = find_pass_key(&self.pass_keys, k);
        match idx {
            Some(i) => {
                proof {
                    lemma_index_unique(self.pass_keys@, k, i as int);
                }
                self.pass_vals[i] = entry;
                proof {
                    lemma_update_value(
                        old(self).pass_keys@, old(self).pass_vals@, self.pass_vals@, i as int);
                }
            },
            None => {
                self.pass_keys.push(k);
                self.pass_vals.push(entry);
                proof {
                    lemma_push_entry(old(self).pass_keys@, old(self).pass_vals@, k, entry);
                }
            },
        }
    }
}

/// Whether the spatial index pair `(ks, vs)` records key `k` under cell `c`.
pub open spec fn sp_has(
    ks: Seq<(u32, u32)>, vs: Seq<Vec<PathCacheKey>>, c: (u32, u32), k: PathCacheKey,
) -> bool {
    exists|ci: int| 0 <= ci < ks.len() && ks[ci] == c && (#[trigger] vs[ci])@.contains(k)
}

/// Whether cell `c` lies in the clearance footprint of the waypoint list:
/// within the scan radius of the cell under some waypoint.
pub open spec fn spec_in_footprint(
    map: &crate::grid::TerrainMap, pts: Seq<(i64, i64)>, size: int, c: (u32, u32),
) -> bool {
    let rt = crate::clearance::spec_radius_tiles(size);
    exists|i: int| 0 <= i < pts.len() && match map.spec_world_to_tile(
        (#[trigger] pts[i]).0 as int, pts[i].1 as int,
    ) {
        Some(t) => t.0 - rt <= c.0 <= t.0 + rt && t.1 - rt <= c.1 <= t.1 + rt,
        None => false,
    }
}

/// The waypoints as a sequence, `None` standing for "no path".
pub open spec fn path_view(p: Option<Vec<(i64, i64)>>) -> Option<Seq<(i64, i64)>> {
    match p {
        Some(v) => Some(v@),
        None => None,
    }
}

impl PathfindingCache {
    /// Drops the cached path under `k`, if any, and clears the key out of
    /// the spatial index. Every other lookup, the counters, the version and
    /// the clock stay as they were.
    fn remove_path_entry(&mut self, k: PathCacheKey)
        requires
            old(self).wf(),
        ensures
            final(self).wf(),
            final(self).spec_path_lookup(k) is None,
            forall|k2: PathCacheKey| k2 != k
                ==> final(self).spec_path_lookup(k2) == old(self).spec_path_lookup(k2),
            final(self).pass_keys == old(self).pass_keys,
            final(self).pass_vals == old(self).pass_vals,
            final(self).terrain_version == old(self).terrain_version,
            final(self).clock_ms == old(self).clock_ms,
            final(self).stats == old(self).stats,
            forall|c: (u32, u32)| !sp_has(final(self).spatial_keys@, final(self).spatial_vals@, c, k),
            forall|c: (u32, u32), k2: PathCacheKey|
                sp_has(final(self).spatial_keys@, final(self).spatial_vals@, c, k2)
                    ==> sp_has(old(self).spatial_keys@, old(self).spatial_vals@, c, k2),
    {
        let idx = find_path_key(&self.path_keys, k);
        match idx {
            Some(i) => {
                proof {
                    lemma_index_unique(self.path_keys@, k, i as int);
                    lemma_remove_entry(self.path_keys@, self.path_vals@, i as int);
                }
                self.path_keys.remove(i);
                let e = self.path_vals.remove(i);
                remove_key_from_spatial(
                    &mut self.spatial_keys, &mut self.spatial_vals, k, &e.affected_tiles);
                proof {
                    let os = old(self);
                    assert forall|c: (u32, u32)|
                        !sp_has(self.spatial_keys@, self.spatial_vals@, c, k)
                    by {
                        if sp_has(self.spatial_keys@, self.spatial_vals@, c, k) {
                            if e.affected_tiles@.contains(c) {
                            } else {
                                assert(sp_has(os.spatial_keys@, os.spatial_vals@, c, k));
                                let ci = choose|ci: int| 0 <= ci < os.spatial_keys@.len()
                                    && os.spatial_keys@[ci] == c
                                    && (#[trigger] os.spatial_vals@[ci])@.contains(k);
                                let j = choose|j: int| 0 <= j < os.spatial_vals@[ci]@.len()
                                    && os.spatial_vals@[ci]@[j] == k;
                                lemma_index_unique(os.path_keys@, k, i as int);
                                assert(os.path_vals@[i as int].affected_tiles@.contains(
                                    os.spatial_keys@[ci]));
                            }
                        }
                    }
                    assert forall|i2: int, t: int|
                        0 <= i2 < self.path_vals@.len()
                            && 0 <= t < self.path_vals@[i2].affected_tiles@.len()
                        implies {
                            let c = #[trigger] self.path_vals@[i2].affected_tiles@[t];
                            sp_has(self.spatial_keys@, self.spatial_vals@, c, self.path_keys@[i2])
                        }
                    by {
                        let c = self.path_vals@[i2].affected_tiles@[t];
                        let i0 = if i2 < i as int { i2 } else { i2 + 1 };
                        assert(self.path_keys@[i2] == os.path_keys@[i0]);
                        assert(self.path_vals@[i2] == os.path_vals@[i0]);
                        assert(sp_has(os.spatial_keys@, os.spatial_vals@, c, os.path_keys@[i0]));
                        assert(os.path_keys@[i0] != k);
                    }
                    assert forall|ci: int, j: int|
                        0 <= ci < self.spatial_vals@.len()
                            && 0 <= j < self.spatial_vals@[ci]@.len()
                        implies {
                            let k2 = #[trigger] self.spatial_vals@[ci]@[j];
                            &&& seq_has(self.path_keys@, k2)
                            &&& self.path_vals@[seq_index_of(self.path_keys@, k2)]
                                .affected_tiles@.contains(self.spatial_keys@[ci])
                        }
                    by {
                        let k2 = self.spatial_vals@[ci]@[j];
                        let c = self.spatial_keys@[ci];
                        assert(self.spatial_vals@[ci]@.contains(k2));
                        assert(sp_has(self.spatial_keys@, self.spatial_vals@, c, k2));
                        assert(k2 != k);
                        assert(sp_has(os.spatial_keys@, os.spatial_vals@, c, k2));
                        let ci0 = choose|ci0: int| 0 <= ci0 < os.spatial_keys@.len()
                            && os.spatial_keys@[ci0] == c
                            && (#[trigger] os.spatial_vals@[ci0])@.contains(k2);
                        let j0 = choose|j0: int| 0 <= j0 < os.spatial_vals@[ci0]@.len()
                            && os.spatial_vals@[ci0]@[j0] == k2;
                        assert(seq_has(os.path_keys@, k2));
                        let p0 = seq_index_of(os.path_keys@, k2);
                        assert(0 <= p0 < os.path_keys@.len() && os.path_keys@[p0] == k2);
                        assert(p0 != i as int);
                        let p1 = if p0 < i as int { p0 } else { p0 - 1 };
                        assert(self.path_keys@[p1] == k2);
                        lemma_index_unique(self.path_keys@, k2, p1);
                        assert(self.path_vals@[p1] == os.path_vals@[p0]);
                    }
                }
            },
            None => {
                proof {
                    let os = old(self);
                    assert forall|c: (u32, u32)|
                        !sp_has(self.spatial_keys@, self.spatial_vals@, c, k)
                    by {
                        if sp_has(self.spatial_keys@, self.spatial_vals@, c, k) {
                            let ci = choose|ci: int| 0 <= ci < os.spatial_keys@.len()
                                && os.spatial_keys@[ci] == c
                                && (#[trigger] os.spatial_vals@[ci])@.contains(k);
                            let j = choose|j: int| 0 <= j < os.spatial_vals@[ci]@.len()
                                && os.spatial_vals@[ci]@[j] == k;
                            assert(seq_has(os.path_keys@, k));
                        }
                    }
                }
            },
        }
    }
}

/// Copies a waypoint list.
pub(crate) fn clone_path(p: &Option<Vec<(i64, i64)>>) -> (r: Option<Vec<(i64, i64)>>)
    ensures
        path_view(r) == path_view(*p),
{
    match p {
        None => None,
        Some(v) => {
            let mut w: Vec<(i64, i64)> = Vec::new();
            let mut i: usize = 0;
            while i < v.len()
                invariant
                    0 <= i <= v@.len(),
                    w@ =~= v@.take(i as int),
                decreases v@.len() - i,
            {
                w.push(v[i]);
                i = i + 1;
            }
            proof {
                assert(w@ =~= v@);
            }
            Some(w)
        },
    }
}

impl PathfindingCache {
    /// The cached path answer under a start cell, goal cell and size,
    /// provided it was stored at the current terrain version; a stale entry
    /// is evicted (spatial index included) and reported as absent. A hit
    /// refreshes the entry's access time and returns a copy of the stored
    /// answer, which may itself be `None` ("no path" is cached too).
    pub fn get_path(
        &mut self, start: (i32, i32), goal: (i32, i32), size: u32,
    ) -> (r: Option<Option<Vec<(i64, i64)>>>)
        requires
            old(self).wf(),
            size <= crate::clearance::MAX_AGENT_SIZE,
        ensures
            final(self).wf(),
            ({
                let k = spec_path_key(start, goal, size as int);
                match old(self).spec_path_lookup(k) {
                    Some(e) => {
                        if e.terrain_version == old(self).terrain_version {
                            &&& r matches Some(p) && path_view(p) == path_view(e.path)
                            &&& final(self).spec_path_lookup(k) == Some(CachedPathResult {
                                last_accessed: old(self).clock_ms, ..e
                            })
                            &&& final(self).stats == (CacheStats {
                                path_cache_hits: spec_bump(old(self).stats.path_cache_hits),
                                ..old(self).stats
                            })
                        } else {
                            &&& r is None
                            &&& final(self).spec_path_lookup(k) is None
                            &&& final(self).stats == (CacheStats {
                                path_cache_misses: spec_bump(old(self).stats.path_cache_misses),
                                ..old(self).stats
                            })
                        }
                    },
                    None => {
                        &&& r is None
                        &&& final(self).spec_path_lookup(k) is None
                        &&& final(self).stats == (CacheStats {
                            path_cache_misses: spec_bump(old(self).stats.path_cache_misses),
                            ..old(self).stats
                        })
                    },
                }
            }),
            forall|k2: PathCacheKey| k2 != spec_path_key(start, goal, size as int)
                ==> final(self).spec_path_lookup(k2) == old(self).spec_path_lookup(k2),
            forall|k2: PassabilityCacheKey|
                final(self).spec_pass_lookup(k2) == old(self).spec_pass_lookup(k2),
            final(self).terrain_version == old(self).terrain_version,
            final(self).clock_ms == old(self).clock_ms,
    {
        let tier = self.quantize_size(size);
        let k = PathCacheKey {
            start_x: start.0, start_y: start.1, goal_x: goal.0, goal_y: goal.1, size_tier: tier,
        };
        let idx = find_path_key(&self.path_keys, k);
        match idx {
            Some(i) => {
                proof {
                    lemma_index_unique(self.path_keys@, k, i as int);
                }
                if self.path_vals[i].terrain_version == self.terrain_version {
                    let answer = clone_path(&self.path_vals[i].path);
                    let ghost vals_pre = self.path_vals@;
                    let mut e = self.path_vals.remove(i);
                    e.last_accessed = self.clock_ms;
                    self.path_vals.insert(i, e);
                    self.stats.path_cache_hits = bump(self.stats.path_cache_hits);
                    proof {
                        assert(self.path_vals@ =~= vals_pre.update(
                            i as int, self.path_vals@[i as int]));
                        lemma_update_value(
                            self.path_keys@, vals_pre, self.path_vals@, i as int);
                    }
                    Some(answer)
                } else {
                    self.remove_path_entry(k);
                    self.stats.path_cache_misses = bump(self.stats.path_cache_misses);
                    None
                }
            },
            None => {
                self.stats.path_cache_misses = bump(self.stats.path_cache_misses);
                None
            },
        }
    }
}

/// The sum of two counts, staying put at the maximum.
pub open spec fn spec_sat_add_usize(a: usize, b: usize) -> usize {
    if a + b > usize::MAX { usize::MAX } else { (a + b) as usize }
}

/// Cells within the scan radius of the columns strictly left of
/// `t.0 + dxlim` around cell `t` (helper for the footprint scan).
pub open spec fn spec_rect_cols(t: (int, int), rt: int, dxlim: int, c: (u32, u32)) -> bool {
    t.0 - rt <= c.0 < t.0 + dxlim && t.1 - rt <= c.1 <= t.1 + rt
}

/// Whether the cell list holds `c`.
fn contains_cell(list: &Vec<(u32, u32)>, c: (u32, u32)) -> (r: bool)
    ensures
        r == list@.contains(c),
{
    let mut i: usize = 0;
    while i < list.len()
        invariant
            0 <= i <= list@.len(),
            forall|j: int| 0 <= j < i ==> list@[j] != c,
        decreases list@.len() - i,
    {
        if list[i].0 == c.0 && list[i].1 == c.1 {
            assert(list@[i as int] == c);
            return true;
        }
        i = i + 1;
    }
    false
}

/// Whether the key list holds `k`.
fn contains_key(list: &Vec<PathCacheKey>, k: PathCacheKey) -> (r: bool)
    ensures
        r == list@.contains(k),
{
    let mut i: usize = 0;
    while i < list.len()
        invariant
            0 <= i <= list@.len(),
            forall|j: int| 0 <= j < i ==> list@[j] != k,
        decreases list@.len() - i,
    {
        if list[i] == k {
            return true;
        }
        i = i + 1;
    }
    false
}

/// Copies a key list and appends `k`.
fn push_key_copy(list: &Vec<PathCacheKey>, k: PathCacheKey) -> (r: Vec<PathCacheKey>)
    ensures
        forall|k2: PathCacheKey| r@.contains(k2) == (list@.contains(k2) || k2 == k),
        r@.len() == list@.len() + 1,
{
    let mut out: Vec<PathCacheKey> = Vec::new();
    let mut i: usize = 0;
    while i < list.len()
        invariant
            0 <= i <= list@.len(),
            out@ =~= list@.take(i as int),
        decreases list@.len() - i,
    {
        out.push(list[i]);
        i = i + 1;
    }
    proof {
        assert(out@ =~= list@);
    }
    out.push(k);
    proof {
        assert forall|k2: PathCacheKey| out@.contains(k2)
            implies (list@.contains(k2) || k2 == k)
        by {
            let j = choose|j: int| 0 <= j < out@.len() && out@[j] == k2;
            if j < out@.len() - 1 {
                assert(list@[j] == k2);
            }
        }
        assert forall|k2: PathCacheKey| list@.contains(k2) implies out@.contains(k2) by {
            let j = choose|j: int| 0 <= j < list@.len() && list@[j] == k2;
            assert(out@[j] == k2);
        }
        assert(out@.last() == k);
    }
    out
}

/// Appends `c` to the cell list unless it is already there.
fn insert_cell(out: &mut Vec<(u32, u32)>, c: (u32, u32))
    requires
        distinct_seq(old(out)@),
    ensures
        distinct_seq(final(out)@),
        forall|c2: (u32, u32)| final(out)@.contains(c2) == (old(out)@.contains(c2) || c2 == c),
{
    let dup = contains_cell(out, c);
    if !dup {
        out.push(c);
        proof {
            assert forall|a: int, b: int| 0 <= a < b < out@.len()
                implies out@[a] != out@[b]
            by {
                if b == out@.len() - 1 {
                    assert(out@[a] == old(out)@[a]);
                    if old(out)@[a] == c {
                        assert(old(out)@.contains(c));
                    }
                } else {
                    assert(out@[a] == old(out)@[a] && out@[b] == old(out)@[b]);
                }
            }
            assert forall|c2: (u32, u32)| out@.contains(c2)
                implies (old(out)@.contains(c2) || c2 == c)
            by {
                let j = choose|j: int| 0 <= j < out@.len() && out@[j] == c2;
                if j < out@.len() - 1 {
                    assert(old(out)@[j] == c2);
                }
            }
            assert forall|c2: (u32, u32)| (old(out)@.contains(c2) || c2 == c)
                implies out@.contains(c2)
            by {
                if c2 == c {
                    assert(out@.last() == c);
                } else {
                    let j = choose|j: int| 0 <= j < old(out)@.len() && old(out)@[j] == c2;
                    assert(out@[j] == c2);
                }
            }
        }
    }
}

/// The cells a path's clearance footprint covers: every cell within the
/// scan radius of the cell under some waypoint (cells with negative
/// coordinates cannot occur and are left out).
fn get_affected_tiles(
    map: &crate::grid::TerrainMap, pts: &Vec<(i64, i64)>, size: u32,
) -> (out: Vec<(u32, u32)>)
    requires
        map.wf(),
        size <= crate::clearance::MAX_AGENT_SIZE,
    ensures
        forall|c: (u32, u32)| out@.contains(c) == spec_in_footprint(map, pts@, size as int, c),
        distinct_seq(out@),
{
    let rt: i32 = ((size + 1999) / 2000) as i32;
    let mut out: Vec<(u32, u32)> = Vec::new();
    let mut p: usize = 0;
    while p < pts.len()
        invariant
            map.wf(),
            size <= crate::clearance::MAX_AGENT_SIZE,
            rt == crate::clearance::spec_radius_tiles(size as int),
            0 <= rt <= 500,
            0 <= p <= pts@.len(),
            forall|c: (u32, u32)| out@.contains(c)
                == spec_in_footprint(map, pts@.take(p as int), size as int, c),
            distinct_seq(out@),
        decreases pts@.len() - p,
    {
        let pt = pts[p];
        let tile = map.world_to_tile_coords(pt.0, pt.1);
        match tile {
            Some((tx, ty)) => {
                let ghost tt = (tx as int, ty as int);
                let mut dx: i32 = -rt;
                while dx <= rt
                    invariant
                        map.wf(),
                        rt == crate::clearance::spec_radius_tiles(size as int),
                        0 <= rt <= 500,
                        -rt <= dx <= rt + 1,
                        0 <= p < pts@.len(),
                        0 <= tx < map.width <= 32768,
                        0 <= ty < map.height <= 32768,
                        tt == (tx as int, ty as int),
                        map.spec_world_to_tile(pts@[p as int].0 as int, pts@[p as int].1 as int)
                            == Some(tt),
                        forall|c: (u32, u32)| out@.contains(c)
                            == (spec_in_footprint(map, pts@.take(p as int), size as int, c)
                                || spec_rect_cols(tt, rt as int, dx as int, c)),
                        distinct_seq(out@),
                    decreases rt + 1 - dx,
                {
                    let mut dy: i32 = -rt;
                    while dy <= rt
                        invariant
                            map.wf(),
                            rt == crate::clearance::spec_radius_tiles(size as int),
                            0 <= rt <= 500,
                            -rt <= dx <= rt,
                            -rt <= dy <= rt + 1,
                            0 <= p < pts@.len(),
                            0 <= tx < map.width <= 32768,
                            0 <= ty < map.height <= 32768,
                            tt == (tx as int, ty as int),
                            map.spec_world_to_tile(
                                pts@[p as int].0 as int, pts@[p as int].1 as int) == Some(tt),
                            forall|c: (u32, u32)| out@.contains(c)
                                == (spec_in_footprint(map, pts@.take(p as int), size as int, c)
                                    || spec_rect_cols(tt, rt as int, dx as int, c)
                                    || (c.0 == tt.0 + dx && tt.1 - rt <= c.1 < tt.1 + dy)),
                            distinct_seq(out@),
                        decreases rt + 1 - dy,
                    {
                        let ax: i32 = tx + dx;
                        let ay: i32 = ty + dy;
                        let ghost out_pre = out@;
                        if ax >= 0 && ay >= 0 {
                            let c: (u32, u32) = (ax as u32, ay as u32);
                            insert_cell(&mut out, c);
                        }
                        proof {
                            assert forall|c2: (u32, u32)| out@.contains(c2)
                                implies (spec_in_footprint(map, pts@.take(p as int), size as int, c2)
                                    || spec_rect_cols(tt, rt as int, dx as int, c2)
                                    || (c2.0 == tt.0 + dx && tt.1 - rt <= c2.1 < tt.1 + dy + 1))
                            by {
                                if ax >= 0 && ay >= 0 && c2 == ((ax as u32, ay as u32)) {
                                    assert(c2.0 == tt.0 + dx && c2.1 == tt.1 + dy);
                                } else {
                                    assert(out_pre.contains(c2));
                                }
                            }
                            assert forall|c2: (u32, u32)|
                                (spec_in_footprint(map, pts@.take(p as int), size as int, c2)
                                    || spec_rect_cols(tt, rt as int, dx as int, c2)
                                    || (c2.0 == tt.0 + dx && tt.1 - rt <= c2.1 < tt.1 + dy + 1))
                                implies out@.contains(c2)
                            by {
                                if c2.0 == tt.0 + dx && c2.1 == tt.1 + dy {
                                    assert(ax as int == c2.0 as int && ay as int == c2.1 as int);
                                    assert(ax >= 0 && ay >= 0);
                                    assert(c2 == ((ax as u32, ay as u32)));
                                    assert(out@.contains(c2));
                                } else {
                                    assert(out_pre.contains(c2));
                                    assert(out@.contains(c2));
                                }
                            }
                        }
                        dy = dy + 1;
                    }
                    dx = dx + 1;
                }
                proof {
                    assert(pts@.take(p + 1 as int).drop_last() =~= pts@.take(p as int));
                    assert forall|c2: (u32, u32)|
                        spec_in_footprint(map, pts@.take(p + 1 as int), size as int, c2)
                            == (spec_in_footprint(map, pts@.take(p as int), size as int, c2)
                                || spec_rect_cols(tt, rt as int, rt + 1 as int, c2))
                    by {
                        let pre = pts@.take(p as int);
                        let cur = pts@.take(p + 1 as int);
                        if spec_in_footprint(map, cur, size as int, c2) {
                            let j = choose|j: int| 0 <= j < cur.len() && match map.spec_world_to_tile(
                                (#[trigger] cur[j]).0 as int, cur[j].1 as int,
                            ) {
                                Some(t) => t.0 - rt <= c2.0 <= t.0 + rt
                                    && t.1 - rt <= c2.1 <= t.1 + rt,
                                None => false,
                            };
                            if j < p as int {
                                assert(pre[j] == cur[j]);
                                assert(spec_in_footprint(map, pre, size as int, c2));
                            } else {
                                assert(cur[j] == pts@[p as int]);
                            }
                        }
                        if spec_in_footprint(map, pre, size as int, c2) {
                            let j = choose|j: int| 0 <= j < pre.len() && match map.spec_world_to_tile(
                                (#[trigger] pre[j]).0 as int, pre[j].1 as int,
                            ) {
                                Some(t) => t.0 - rt <= c2.0 <= t.0 + rt
                                    && t.1 - rt <= c2.1 <= t.1 + rt,
                                None => false,
                            };
                            assert(cur[j] == pre[j]);
                            assert(spec_in_footprint(map, cur, size as int, c2));
                        }
                        if spec_rect_cols(tt, rt as int, rt + 1 as int, c2) {
                            assert(cur[p as int] == pts@[p as int]);
                            assert(spec_in_footprint(map, cur, size as int, c2));
                        }
                    }
                }
            },
            None => {
                proof {
                    assert(pts@.take(p + 1 as int).drop_last() =~= pts@.take(p as int));
                    assert forall|c2: (u32, u32)|
                        spec_in_footprint(map, pts@.take(p + 1 as int), size as int, c2)
                            == spec_in_footprint(map, pts@.take(p as int), size as int, c2)
                    by {
                        let pre = pts@.take(p as int);
                        let cur = pts@.take(p + 1 as int);
                        if spec_in_footprint(map, cur, size as int, c2) {
                            let j = choose|j: int| 0 <= j < cur.len() && match map.spec_world_to_tile(
                                (#[trigger] cur[j]).0 as int, cur[j].1 as int,
                            ) {
                                Some(t) => t.0 - rt <= c2.0 <= t.0 + rt
                                    && t.1 - rt <= c2.1 <= t.1 + rt,
                                None => false,
                            };
                            if j < p as int {
                                assert(pre[j] == cur[j]);
                                assert(spec_in_footprint(map, pre, size as int, c2));
                            } else {
                                assert(cur[j] == pts@[p as int]);
                                assert(false);
                            }
                        }
                        if spec_in_footprint(map, pre, size as int, c2) {
                            let j = choose|j: int| 0 <= j < pre.len() && match map.spec_world_to_tile(
                                (#[trigger] pre[j]).0 as int, pre[j].1 as int,
                            ) {
                                Some(t) => t.0 - rt <= c2.0 <= t.0 + rt
                                    && t.1 - rt <= c2.1 <= t.1 + rt,
                                None => false,
                            };
                            assert(cur[j] == pre[j]);
                            assert(spec_in_footprint(map, cur, size as int, c2));
                        }
                    }
                }
            },
        }
        p = p + 1;
    }
    proof {
        assert(pts@.take(pts@.len() as int) =~= pts@);
    }
    out
}

/// Records key `k` in the spatial index under the single cell `c`. Every
/// other (cell, key) membership stays as it was.
fn spatial_add_cell(
    ks: &mut Vec<(u32, u32)>, vs: &mut Vec<Vec<PathCacheKey>>,
    k: PathCacheKey, c: (u32, u32),
)
    requires
        old(ks)@.len() == old(vs)@.len(),
        distinct_seq(old(ks)@),
        forall|ci: int| 0 <= ci < old(vs)@.len() ==> (#[trigger] old(vs)@[ci])@.len() > 0,
    ensures
        final(ks)@.len() == final(vs)@.len(),
        distinct_seq(final(ks)@),
        forall|ci: int| 0 <= ci < final(vs)@.len() ==> (#[trigger] final(vs)@[ci])@.len() > 0,
        sp_has(final(ks)@, final(vs)@, c, k),
        forall|c2: (u32, u32), k2: PathCacheKey| !(c2 == c && k2 == k)
            ==> sp_has(final(ks)@, final(vs)@, c2, k2) == sp_has(old(ks)@, old(vs)@, c2, k2),
{
    let ghost ks_pre = ks@;
    let ghost vs_pre = vs@;
    let found = find_cell_key(ks, c);
    match found {
        Some(ci) => {
            proof {
                lemma_index_unique(ks@, c, ci as int);
            }
            if contains_key(&vs[ci], k) {
                proof {
                    assert(sp_has(ks@, vs@, c, k));
                }
            } else {
                let l2 = push_key_copy(&vs[ci], k);
                vs[ci] = l2;
                proof {
                    assert forall|ci2: int| 0 <= ci2 < vs@.len()
                        implies (#[trigger] vs@[ci2])@.len() > 0
                    by {
                        if ci2 != ci as int {
                            assert(vs@[ci2] == vs_pre[ci2]);
                        }
                    }
                    lemma_update_value(ks_pre, vs_pre, vs@, ci as int);
                    assert(ks@ == ks_pre
                        && exists|i: int| 0 <= i < ks_pre.len() && ks_pre[i] == c
                        && vs@ == vs_pre.update(i, vs@[i])) by {
                        assert(ks_pre[ci as int] == c
                            && vs@ == vs_pre.update(ci as int, vs@[ci as int]));
                    }
                    lemma_sp_cell_changed(ks_pre, vs_pre, ks@, vs@, c);
                    assert(vs@[ci as int]@.contains(k));
                    assert(sp_has(ks@, vs@, c, k));
                    assert forall|k2: PathCacheKey| k2 != k
                        implies sp_has(ks@, vs@, c, k2) == sp_has(ks_pre, vs_pre, c, k2)
                    by {
                        if sp_has(ks_pre, vs_pre, c, k2) {
                            let ci2 = choose|ci2: int| 0 <= ci2 < ks_pre.len()
                                && ks_pre[ci2] == c && (#[trigger] vs_pre[ci2])@.contains(k2);
                            lemma_index_unique(ks_pre, c, ci2);
                            assert(vs@[ci as int]@.contains(k2));
                        }
                        if sp_has(ks@, vs@, c, k2) {
                            let ci2 = choose|ci2: int| 0 <= ci2 < ks@.len()
                                && ks@[ci2] == c && (#[trigger] vs@[ci2])@.contains(k2);
                            lemma_index_unique(ks@, c, ci2);
                            assert(vs_pre[ci as int]@.contains(k2));
                        }
                    }
                }
            }
        },
        None => {
            let mut l: Vec<PathCacheKey> = Vec::new();
            l.push(k);
            ks.push(c);
            vs.push(l);
            proof {
                assert forall|ci2: int| 0 <= ci2 < vs@.len()
                    implies (#[trigger] vs@[ci2])@.len() > 0
                by {
                    if ci2 < vs@.len() - 1 {
                        assert(vs@[ci2] == vs_pre[ci2]);
                    } else {
                        assert(vs@[ci2]@.len() == 1);
                    }
                }
                assert forall|a: int, b: int| 0 <= a < b < ks@.len()
                    implies ks@[a] != ks@[b]
                by {
                    if b == ks@.len() - 1 {
                        assert(ks@[a] == ks_pre[a]);
                        if ks_pre[a] == c {
                            assert(false);
                        }
                    } else {
                        assert(ks@[a] == ks_pre[a] && ks@[b] == ks_pre[b]);
                    }
                }
                assert(vs@.last()@[0] == k);
                assert(sp_has(ks@, vs@, c, k)) by {
                    assert(ks@[ks@.len() - 1] == c && vs@[ks@.len() - 1]@.contains(k));
                }
                assert forall|c2: (u32, u32), k2: PathCacheKey| !(c2 == c && k2 == k)
                    implies sp_has(ks@, vs@, c2, k2) == sp_has(ks_pre, vs_pre, c2, k2)
                by {
                    if sp_has(ks_pre, vs_pre, c2, k2) {
                        let ci2 = choose|ci2: int| 0 <= ci2 < ks_pre.len()
                            && ks_pre[ci2] == c2 && (#[trigger] vs_pre[ci2])@.contains(k2);
                        assert(ks@[ci2] == c2 && vs@[ci2] == vs_pre[ci2]);
                        assert(sp_has(ks@, vs@, c2, k2));
                    }
                    if sp_has(ks@, vs@, c2, k2) {
                        let ci2 = choose|ci2: int| 0 <= ci2 < ks@.len()
                            && ks@[ci2] == c2 && (#[trigger] vs@[ci2])@.contains(k2);
                        if ci2 == ks@.len() - 1 {
                            assert(c2 == c);
                            let j = choose|j: int| 0 <= j < vs@[ci2]@.len()
                                && vs@[ci2]@[j] == k2;
                            assert(vs@[ci2]@.len() == 1);
                            assert(k2 == k);
                            assert(false);
                        } else {
                            assert(ks_pre[ci2] == c2 && vs_pre[ci2] == vs@[ci2]);
                            assert(sp_has(ks_pre, vs_pre, c2, k2));
                        }
                    }
                }
            }
        },
    }
}

/// Records key `k` in the spatial index under every cell of `tiles`.
/// Other keys' membership is untouched everywhere.
fn add_key_to_spatial(
    ks: &mut Vec<(u32, u32)>, vs: &mut Vec<Vec<PathCacheKey>>,
    k: PathCacheKey, tiles: &Vec<(u32, u32)>,
)
    requires
        old(ks)@.len() == old(vs)@.len(),
        distinct_seq(old(ks)@),
        forall|ci: int| 0 <= ci < old(vs)@.len() ==> (#[trigger] old(vs)@[ci])@.len() > 0,
    ensures
        final(ks)@.len() == final(vs)@.len(),
        distinct_seq(final(ks)@),
        forall|ci: int| 0 <= ci < final(vs)@.len() ==> (#[trigger] final(vs)@[ci])@.len() > 0,
        forall|c: (u32, u32), k2: PathCacheKey| k2 != k
            ==> sp_has(final(ks)@, final(vs)@, c, k2) == sp_has(old(ks)@, old(vs)@, c, k2),
        forall|c: (u32, u32)| sp_has(final(ks)@, final(vs)@, c, k)
            == (sp_has(old(ks)@, old(vs)@, c, k) || tiles@.contains(c)),
{
    let mut t: usize = 0;
    while t < tiles.len()
        invariant
            0 <= t <= tiles@.len(),
            ks@.len() == vs@.len(),
            distinct_seq(ks@),
            forall|ci: int| 0 <= ci < vs@.len() ==> (#[trigger] vs@[ci])@.len() > 0,
            forall|c: (u32, u32), k2: PathCacheKey| k2 != k
                ==> sp_has(ks@, vs@, c, k2) == sp_has(old(ks)@, old(vs)@, c, k2),
            forall|c: (u32, u32)| sp_has(ks@, vs@, c, k)
                == (sp_has(old(ks)@, old(vs)@, c, k)
                    || exists|j: int| 0 <= j < t && tiles@[j] == c),
        decreases tiles@.len() - t,
    {
        let c = tiles[t];
        let ghost ks_pre = ks@;
        let ghost vs_pre = vs@;
        spatial_add_cell(ks, vs, k, c);
        proof {
            assert forall|c2: (u32, u32)| sp_has(ks@, vs@, c2, k)
                implies (sp_has(old(ks)@, old(vs)@, c2, k)
                    || exists|j: int| 0 <= j < t + 1 && tiles@[j] == c2)
            by {
                if c2 == c {
                    assert(tiles@[t as int] == c2);
                } else {
                    assert(sp_has(ks@, vs@, c2, k) == sp_has(ks_pre, vs_pre, c2, k));
                }
            }
            assert forall|c2: (u32, u32)|
                (sp_has(old(ks)@, old(vs)@, c2, k)
                    || exists|j: int| 0 <= j < t + 1 && tiles@[j] == c2)
                implies sp_has(ks@, vs@, c2, k)
            by {
                if c2 == c {
                    assert(sp_has(ks@, vs@, c, k));
                } else {
                    assert(sp_has(ks@, vs@, c2, k) == sp_has(ks_pre, vs_pre, c2, k));
                    if exists|j: int| 0 <= j < t + 1 && tiles@[j] == c2 {
                        let j = choose|j: int| 0 <= j < t + 1 && tiles@[j] == c2;
                        assert(j != t);
                        assert(0 <= j < t && tiles@[j] == c2);
                    }
                }
            }
        }
        t = t + 1;
    }
    proof {
        assert forall|c: (u32, u32)| sp_has(ks@, vs@, c, k)
            == (sp_has(old(ks)@, old(vs)@, c, k) || tiles@.contains(c))
        by {
            if tiles@.contains(c) {
                let j = choose|j: int| 0 <= j < tiles@.len() && tiles@[j] == c;
                assert(0 <= j < t && tiles@[j] == c);
            }
            if exists|j: int| 0 <= j < t && tiles@[j] == c {
                let j = choose|j: int| 0 <= j < t && tiles@[j] == c;
                assert(tiles@.contains(c));
            }
        }
    }
}

/// Finds a path key in the list.
fn find_path_key(keys: &Vec<PathCacheKey>, k: PathCacheKey) -> (r: Option<usize>)
    ensures
        match r {
            Some(i) => 0 <= i < keys@.len() && keys@[i as int] == k,
            None => forall|j: int| 0 <= j < keys@.len() ==> keys@[j] != k,
        },
{
    let mut i: usize = 0;
    while i < keys.len()
        invariant
            0 <= i <= keys@.len(),
            forall|j: int| 0 <= j < i ==> keys@[j] != k,
        decreases keys@.len() - i,
    {
        if keys[i] == k {
            return Some(i);
        }
        i = i + 1;
    }
    None
}

/// Finds a cell in the spatial index's key list.
fn find_cell_key(keys: &Vec<(u32, u32)>, c: (u32, u32)) -> (r: Option<usize>)
    ensures
        match r {
            Some(i) => 0 <= i < keys@.len() && keys@[i as int] == c,
            None => forall|j: int| 0 <= j < keys@.len() ==> keys@[j] != c,
        },
{
    let mut i: usize = 0;
    while i < keys.len()
        invariant
            0 <= i <= keys@.len(),
            forall|j: int| 0 <= j < i ==> keys@[j] != c,
        decreases keys@.len() - i,
    {
        if keys[i].0 == c.0 && keys[i].1 == c.1 {
            return Some(i);
        }
        i = i + 1;
    }
    None
}

/// The list without every occurrence of `k`.
fn filter_key(list: &Vec<PathCacheKey>, k: PathCacheKey) -> (r: Vec<PathCacheKey>)
    ensures
        forall|k2: PathCacheKey| r@.contains(k2) == (list@.contains(k2) && k2 != k),
{
    let mut out: Vec<PathCacheKey> = Vec::new();
    let mut i: usize = 0;
    while i < list.len()
        invariant
            0 <= i <= list@.len(),
            forall|k2: PathCacheKey| out@.contains(k2)
                == (list@.take(i as int).contains(k2) && k2 != k),
        decreases list@.len() - i,
    {
        let x = list[i];
        let ghost out_pre = out@;
        if !(x == k) {
            out.push(x);
        }
        proof {
            assert forall|k2: PathCacheKey| out@.contains(k2)
                implies (list@.take(i + 1 as int).contains(k2) && k2 != k)
            by {
                if x != k && k2 == x {
                    assert(list@.take(i + 1 as int)[i as int] == x);
                    assert(list@.take(i + 1 as int).contains(k2));
                } else {
                    assert(out_pre.contains(k2)) by {
                        let j = choose|j: int| 0 <= j < out@.len() && out@[j] == k2;
                        if x != k && j == out@.len() - 1 {
                            assert(k2 == x);
                            assert(false);
                        } else {
                            assert(out_pre[j] == k2);
                        }
                    }
                    assert(list@.take(i as int).contains(k2) && k2 != k);
                    let j2 = choose|j2: int| 0 <= j2 < i
                        && (#[trigger] list@.take(i as int)[j2]) == k2;
                    assert(list@.take(i + 1 as int)[j2] == k2);
                    assert(list@.take(i + 1 as int).contains(k2));
                }
            }
            assert forall|k2: PathCacheKey| (list@.take(i + 1 as int).contains(k2) && k2 != k)
                implies out@.contains(k2)
            by {
                let j = choose|j: int| 0 <= j < i + 1
                    && (#[trigger] list@.take(i + 1 as int)[j]) == k2;
                if j < i {
                    assert(list@.take(i as int)[j] == k2);
                    assert(list@.take(i as int).contains(k2));
                    assert(out_pre.contains(k2));
                    let j3 = choose|j3: int| 0 <= j3 < out_pre.len() && out_pre[j3] == k2;
                    assert(out@[j3] == k2);
                } else {
                    assert(k2 == x);
                    assert(out@.last() == x);
                }
            }
        }
        i = i + 1;
    }
    proof {
        assert(list@.take(list@.len() as int) =~= list@);
    }
    out
}

/// Strips key `k` out of the spatial index under every cell of `tiles`,
/// dropping cells whose lists become empty. Other keys' membership is
/// untouched everywhere, and `k`'s membership is untouched off `tiles`.
fn remove_key_from_spatial(
    ks: &mut Vec<(u32, u32)>, vs: &mut Vec<Vec<PathCacheKey>>,
    k: PathCacheKey, tiles: &Vec<(u32, u32)>,
)
    requires
        old(ks)@.len() == old(vs)@.len(),
        distinct_seq(old(ks)@),
        forall|ci: int| 0 <= ci < old(vs)@.len() ==> (#[trigger] old(vs)@[ci])@.len() > 0,
    ensures
        final(ks)@.len() == final(vs)@.len(),
        distinct_seq(final(ks)@),
        forall|ci: int| 0 <= ci < final(vs)@.len() ==> (#[trigger] final(vs)@[ci])@.len() > 0,
        forall|c: (u32, u32), k2: PathCacheKey| k2 != k
            ==> sp_has(final(ks)@, final(vs)@, c, k2) == sp_has(old(ks)@, old(vs)@, c, k2),
        forall|c: (u32, u32)| tiles@.contains(c) ==> !sp_has(final(ks)@, final(vs)@, c, k),
        forall|c: (u32, u32)| !tiles@.contains(c)
            ==> sp_has(final(ks)@, final(vs)@, c, k) == sp_has(old(ks)@, old(vs)@, c, k),
{
    let mut t: usize = 0;
    while t < tiles.len()
        invariant
            0 <= t <= tiles@.len(),
            ks@.len() == vs@.len(),
            distinct_seq(ks@),
            forall|ci: int| 0 <= ci < vs@.len() ==> (#[trigger] vs@[ci])@.len() > 0,
            forall|c: (u32, u32), k2: PathCacheKey| k2 != k
                ==> sp_has(ks@, vs@, c, k2) == sp_has(old(ks)@, old(vs)@, c, k2),
            forall|c: (u32, u32)| tiles@.take(t as int).contains(c) ==> !sp_has(ks@, vs@, c, k),
            forall|c: (u32, u32)| !tiles@.take(t as int).contains(c)
                ==> sp_has(ks@, vs@, c, k) == sp_has(old(ks)@, old(vs)@, c, k),
        decreases tiles@.len() - t,
    {
        let c = tiles[t];
        let ghost ks_pre = ks@;
        let ghost vs_pre = vs@;
        let found = find_cell_key(ks, c);
        match found {
            Some(ci) => {
                proof {
                    lemma_index_unique(ks@, c, ci as int);
                }
                let filtered = filter_key(&vs[ci], k);
                if filtered.len() == 0 {
                    proof {
                        lemma_remove_entry(ks@, vs@, ci as int);
                    }
                    ks.remove(ci);
                    vs.remove(ci);
                    proof {
                        assert forall|ci2: int| 0 <= ci2 < vs@.len()
                            implies (#[trigger] vs@[ci2])@.len() > 0
                        by {
                            let c0 = if ci2 < ci as int { ci2 } else { ci2 + 1 };
                            assert(vs@[ci2] == vs_pre[c0]);
                        }
                        assert(exists|i: int| 0 <= i < ks_pre.len() && ks_pre[i] == c
                            && ks@ == ks_pre.remove(i) && vs@ == vs_pre.remove(i)) by {
                            assert(ks_pre[ci as int] == c
                                && ks@ == ks_pre.remove(ci as int)
                                && vs@ == vs_pre.remove(ci as int));
                        }
                        lemma_sp_cell_changed(ks_pre, vs_pre, ks@, vs@, c);
                        assert(!seq_has(ks@, c));
                        assert forall|k2: PathCacheKey| !sp_has(ks@, vs@, c, k2) by {
                            if sp_has(ks@, vs@, c, k2) {
                                let ci2 = choose|ci2: int| 0 <= ci2 < ks@.len()
                                    && ks@[ci2] == c && (#[trigger] vs@[ci2])@.contains(k2);
                                assert(seq_has(ks@, c));
                            }
                        }
                        assert forall|k2: PathCacheKey| k2 != k
                            implies !sp_has(ks_pre, vs_pre, c, k2)
                        by {
                            if sp_has(ks_pre, vs_pre, c, k2) {
                                let ci2 = choose|ci2: int| 0 <= ci2 < ks_pre.len()
                                    && ks_pre[ci2] == c && (#[trigger] vs_pre[ci2])@.contains(k2);
                                lemma_index_unique(ks_pre, c, ci2);
                                assert(ci2 == ci as int);
                                assert(filtered@.contains(k2));
                            }
                        }
                    }
                } else {
                    vs[ci] = filtered;
                    proof {
                        assert forall|ci2: int| 0 <= ci2 < vs@.len()
                            implies (#[trigger] vs@[ci2])@.len() > 0
                        by {
                            if ci2 != ci as int {
                                assert(vs@[ci2] == vs_pre[ci2]);
                            }
                        }
                        lemma_update_value(ks_pre, vs_pre, vs@, ci as int);
                        assert(ks@ == ks_pre
                            && exists|i: int| 0 <= i < ks_pre.len() && ks_pre[i] == c
                            && vs@ == vs_pre.update(i, vs@[i])) by {
                            assert(ks_pre[ci as int] == c
                                && vs@ == vs_pre.update(ci as int, vs@[ci as int]));
                        }
                        lemma_sp_cell_changed(ks_pre, vs_pre, ks@, vs@, c);
                        assert forall|k2: PathCacheKey| k2 != k && sp_has(ks_pre, vs_pre, c, k2)
                            implies sp_has(ks@, vs@, c, k2)
                        by {
                            let ci2 = choose|ci2: int| 0 <= ci2 < ks_pre.len()
                                && ks_pre[ci2] == c && (#[trigger] vs_pre[ci2])@.contains(k2);
                            lemma_index_unique(ks_pre, c, ci2);
                            assert(ci2 == ci as int);
                            assert(vs@[ci as int]@.contains(k2));
                        }
                        assert forall|k2: PathCacheKey| k2 != k && sp_has(ks@, vs@, c, k2)
                            implies sp_has(ks_pre, vs_pre, c, k2)
                        by {
                            let ci2 = choose|ci2: int| 0 <= ci2 < ks@.len()
                                && ks@[ci2] == c && (#[trigger] vs@[ci2])@.contains(k2);
                            lemma_index_unique(ks@, c, ci2);
                            assert(ci2 == ci as int);
                            assert(vs_pre[ci as int]@.contains(k2));
                        }
                        assert(!sp_has(ks@, vs@, c, k)) by {
                            if sp_has(ks@, vs@, c, k) {
                                let ci2 = choose|ci2: int| 0 <= ci2 < ks@.len()
                                    && ks@[ci2] == c && (#[trigger] vs@[ci2])@.contains(k);
                                lemma_index_unique(ks@, c, ci2);
                                assert(filtered@.contains(k));
                            }
                        }
                    }
                }
            },
            None => {
                proof {
                    assert forall|k2: PathCacheKey| !sp_has(ks@, vs@, c, k2) by {
                        if sp_has(ks@, vs@, c, k2) {
                            let ci2 = choose|ci2: int| 0 <= ci2 < ks@.len()
                                && ks@[ci2] == c && (#[trigger] vs@[ci2])@.contains(k2);
                        }
                    }
                }
            },
        }
        proof {
            assert forall|c2: (u32, u32), k2: PathCacheKey| k2 != k
                implies sp_has(ks@, vs@, c2, k2) == sp_has(old(ks)@, old(vs)@, c2, k2)
            by {
                if c2 == c {
                    assert(sp_has(ks_pre, vs_pre, c2, k2) == sp_has(old(ks)@, old(vs)@, c2, k2));
                } else {
                    assert(sp_has(ks@, vs@, c2, k2) == sp_has(ks_pre, vs_pre, c2, k2));
                }
            }
            assert forall|c2: (u32, u32)| tiles@.take(t + 1 as int).contains(c2)
                implies !sp_has(ks@, vs@, c2, k)
            by {
                if c2 == c {
                } else {
                    assert(tiles@.take(t as int).contains(c2)) by {
                        let j = choose|j: int| 0 <= j < t + 1
                            && (#[trigger] tiles@.take(t + 1 as int)[j]) == c2;
                        assert(j < t);
                        assert(tiles@.take(t as int)[j] == c2);
                    }
                    assert(!sp_has(ks_pre, vs_pre, c2, k));
                    assert(sp_has(ks@, vs@, c2, k) == sp_has(ks_pre, vs_pre, c2, k));
                }
            }
            assert forall|c2: (u32, u32)| !tiles@.take(t + 1 as int).contains(c2)
                implies sp_has(ks@, vs@, c2, k) == sp_has(old(ks)@, old(vs)@, c2, k)
            by {
                assert(c2 != c) by {
                    assert(tiles@.take(t + 1 as int)[t as int] == c);
                }
                assert(!tiles@.take(t as int).contains(c2)) by {
                    if tiles@.take(t as int).contains(c2) {
                        let j = choose|j: int| 0 <= j < t
                            && (#[trigger] tiles@.take(t as int)[j]) == c2;
                        assert(tiles@.take(t + 1 as int)[j] == c2);
                    }
                }
                assert(sp_has(ks@, vs@, c2, k) == sp_has(ks_pre, vs_pre, c2, k));
            }
        }
        t = t + 1;
    }
    proof {
        assert(tiles@.take(tiles@.len() as int) =~= tiles@);
    }
}

/// A change at one spatial cell leaves membership at every other cell as
/// it was, whether the cell's entry was removed or its list replaced.
proof fn lemma_sp_cell_changed(
    ks0: Seq<(u32, u32)>, vs0: Seq<Vec<PathCacheKey>>,
    ks1: Seq<(u32, u32)>, vs1: Seq<Vec<PathCacheKey>>,
    c: (u32, u32),
)
    requires
        ks0.len() == vs0.len(),
        ks1.len() == vs1.len(),
        distinct_seq(ks0),
        distinct_seq(ks1),
        (exists|i: int| 0 <= i < ks0.len() && ks0[i] == c
            && ks1 == ks0.remove(i) && vs1 == vs0.remove(i))
        || (ks1 == ks0 && exists|i: int| 0 <= i < ks0.len() && ks0[i] == c
            && vs1 == vs0.update(i, vs1[i])),
    ensures
        forall|c2: (u32, u32), k2: PathCacheKey| c2 != c
            ==> sp_has(ks1, vs1, c2, k2) == sp_has(ks0, vs0, c2, k2),
{
    if exists|i: int| 0 <= i < ks0.len() && ks0[i] == c
        && ks1 == ks0.remove(i) && vs1 == vs0.remove(i) {
        let i = choose|i: int| 0 <= i < ks0.len() && ks0[i] == c
            && ks1 == ks0.remove(i) && vs1 == vs0.remove(i);
        assert forall|c2: (u32, u32), k2: PathCacheKey| c2 != c
            implies sp_has(ks1, vs1, c2, k2) == sp_has(ks0, vs0, c2, k2)
        by {
            if sp_has(ks0, vs0, c2, k2) {
                let ci = choose|ci: int| 0 <= ci < ks0.len()
                    && ks0[ci] == c2 && (#[trigger] vs0[ci])@.contains(k2);
                assert(ci != i);
                let ci1 = if ci < i { ci } else { ci - 1 };
                assert(ks1[ci1] == ks0[ci] && vs1[ci1] == vs0[ci]);
                assert(sp_has(ks1, vs1, c2, k2));
            }
            if sp_has(ks1, vs1, c2, k2) {
                let ci = choose|ci: int| 0 <= ci < ks1.len()
                    && ks1[ci] == c2 && (#[trigger] vs1[ci])@.contains(k2);
                let ci0 = if ci < i { ci } else { ci + 1 };
                assert(ks1[ci] == ks0[ci0] && vs1[ci] == vs0[ci0]);
                assert(sp_has(ks0, vs0, c2, k2));
            }
        }
    } else {
        let i = choose|i: int| 0 <= i < ks0.len() && ks0[i] == c
            && vs1 == vs0.update(i, vs1[i]);
        assert forall|c2: (u32, u32), k2: PathCacheKey| c2 != c
            implies sp_has(ks1, vs1, c2, k2) == sp_has(ks0, vs0, c2, k2)
        by {
            if sp_has(ks0, vs0, c2, k2) {
                let ci = choose|ci: int| 0 <= ci < ks0.len()
                    && ks0[ci] == c2 && (#[trigger] vs0[ci])@.contains(k2);
                assert(ci != i);
                assert(vs1[ci] == vs0[ci]);
                assert(sp_has(ks1, vs1, c2, k2));
            }
            if sp_has(ks1, vs1, c2, k2) {
                let ci = choose|ci: int| 0 <= ci < ks1.len()
                    && ks1[ci] == c2 && (#[trigger] vs1[ci])@.contains(k2);
                assert(ci != i);
                assert(vs1[ci] == vs0[ci]);
                assert(sp_has(ks0, vs0, c2, k2));
            }
        }
    }
}

impl PathfindingCache {
    /// Stores a path answer (possibly "no path") under the start cell, goal
    /// cell and size, stamped with the current terrain version and clock.
    /// The entry's footprint — every cell within the clearance scan radius
    /// of a waypoint's cell, or no cells at all for a "no path" answer — is
    /// recorded in the spatial index. An entry already under the key is
    /// replaced.
    pub fn cache_path(
        &mut self, start: (i32, i32), goal: (i32, i32), size: u32,
        path: Option<Vec<(i64, i64)>>, terrain_map: &crate::grid::TerrainMap,
    )
        requires
            old(self).wf(),
            size <= crate::clearance::MAX_AGENT_SIZE,
            terrain_map.wf(),
        ensures
            final(self).wf(),
            ({
                let k = spec_path_key(start, goal, size as int);
                match final(self).spec_path_lookup(k) {
                    Some(e) => {
                        &&& e.path == path
                        &&& e.terrain_version == old(self).terrain_version
                        &&& e.last_accessed == old(self).clock_ms
                        &&& match path {
                            Some(v) => forall|c: (u32, u32)| e.affected_tiles@.contains(c)
                                == spec_in_footprint(terrain_map, v@, size as int, c),
                            None => e.affected_tiles@.len() == 0,
                        }
                    },
                    None => false,
                }
            }),
            forall|k2: PathCacheKey| k2 != spec_path_key(start, goal, size as int)
                ==> final(self).spec_path_lookup(k2) == old(self).spec_path_lookup(k2),
            forall|k2: PassabilityCacheKey|
                final(self).spec_pass_lookup(k2) == old(self).spec_pass_lookup(k2),
            final(self).terrain_version == old(self).terrain_version,
            final(self).clock_ms == old(self).clock_ms,
            final(self).stats == (CacheStats {
                cache_size: final(self).stats.cache_size, ..old(self).stats
            }),
            final(self).stats.cache_size
                == spec_sat_add_usize(
                    final(self).path_keys@.len() as usize,
                    final(self).pass_keys@.len() as usize,
                ),
    {
        let tier = self.quantize_size(size);
        let k = PathCacheKey {
            start_x: start.0, start_y: start.1, goal_x: goal.0, goal_y: goal.1, size_tier: tier,
        };
        self.remove_path_entry(k);
        let affected: Vec<(u32, u32)> = match &path {
            Some(v) => get_affected_tiles(terrain_map, v, size),
            None => Vec::new(),
        };
        add_key_to_spatial(&mut self.spatial_keys, &mut self.spatial_vals, k, &affected);
        let entry = CachedPathResult {
            path,
            terrain_version: self.terrain_version,
            last_accessed: self.clock_ms,
            affected_tiles: affected,
        };
        let ghost keys_mid = self.path_keys@;
        let ghost vals_mid = self.path_vals@;
        self.path_keys.push(k);
        self.path_vals.push(entry);
        self.update_stats();
        proof {
            lemma_push_entry(keys_mid, vals_mid, k, entry);
            let fs = self;
            assert forall|i: int, t: int|
                0 <= i < fs.path_vals@.len()
                    && 0 <= t < fs.path_vals@[i].affected_tiles@.len()
                implies {
                    let c = #[trigger] fs.path_vals@[i].affected_tiles@[t];
                    sp_has(fs.spatial_keys@, fs.spatial_vals@, c, fs.path_keys@[i])
                }
            by {
                let c = fs.path_vals@[i].affected_tiles@[t];
                if i == fs.path_vals@.len() - 1 {
                    assert(fs.path_vals@[i] == entry);
                    assert(entry.affected_tiles@.contains(c));
                    assert(sp_has(fs.spatial_keys@, fs.spatial_vals@, c, k));
                } else {
                    assert(fs.path_keys@[i] == keys_mid[i]);
                    assert(fs.path_vals@[i] == vals_mid[i]);
                    assert(fs.path_keys@[i] != k);
                }
            }
            assert forall|ci: int, j: int|
                0 <= ci < fs.spatial_vals@.len()
                    && 0 <= j < fs.spatial_vals@[ci]@.len()
                implies {
                    let k2 = #[trigger] fs.spatial_vals@[ci]@[j];
                    &&& seq_has(fs.path_keys@, k2)
                    &&& fs.path_vals@[seq_index_of(fs.path_keys@, k2)]
                        .affected_tiles@.contains(fs.spatial_keys@[ci])
                }
            by {
                let k2 = fs.spatial_vals@[ci]@[j];
                let c = fs.spatial_keys@[ci];
                assert(fs.spatial_vals@[ci]@.contains(k2));
                assert(sp_has(fs.spatial_keys@, fs.spatial_vals@, c, k2));
                if k2 == k {
                    assert(entry.affected_tiles@.contains(c));
                    assert(fs.path_keys@.last() == k);
                    lemma_index_unique(fs.path_keys@, k, fs.path_keys@.len() - 1);
                } else {
                    let os = old(self);
                    assert(sp_has(os.spatial_keys@, os.spatial_vals@, c, k2));
                    let ci0 = choose|ci0: int| 0 <= ci0 < os.spatial_keys@.len()
                        && os.spatial_keys@[ci0] == c
                        && (#[trigger] os.spatial_vals@[ci0])@.contains(k2);
                    let j0 = choose|j0: int| 0 <= j0 < os.spatial_vals@[ci0]@.len()
                        && os.spatial_vals@[ci0]@[j0] == k2;
                    assert(seq_has(os.path_keys@, k2));
                    let p0 = seq_index_of(os.path_keys@, k2);
                    assert(0 <= p0 < os.path_keys@.len() && os.path_keys@[p0] == k2);
                    assert(os.spec_path_lookup(k2) == Some(os.path_vals@[p0]));
                    assert(fs.spec_path_lookup(k2) == os.spec_path_lookup(k2));
                    assert(seq_has(fs.path_keys@, k2));
                    assert(fs.path_vals@[seq_index_of(fs.path_keys@, k2)] == os.path_vals@[p0]);
                }
            }
        }
    }

    /// Refreshes the entry-count statistic.
    fn update_stats(&mut self)
        ensures
            *final(self) == (PathfindingCache {
                stats: CacheStats {
                    cache_size: spec_sat_add_usize(
                        old(self).path_keys@.len() as usize,
                        old(self).pass_keys@.len() as usize,
                    ),
                    ..old(self).stats
                },
                ..*old(self)
            }),
    {
        let a = self.path_keys.len();
        let b = self.pass_keys.len();
        self.stats.cache_size = if a > usize::MAX - b { usize::MAX } else { a + b };
    }
}

/// Whether a passability key lies within three cells (in both axes) of
/// some changed cell; such entries are invalidated conservatively, since
/// large agents are affected by terrain several cells away.
pub open spec fn spec_near_change(k: PassabilityCacheKey, ch: Seq<(u32, u32, usize)>) -> bool {
    exists|j: int| 0 <= j < ch.len()
        && -3 <= k.tile_x - (#[trigger] ch[j]).0 <= 3
        && -3 <= k.tile_y - ch[j].1 <= 3
}

/// Whether a cached path's footprint holds some changed cell.
pub open spec fn spec_touches_change(e: CachedPathResult, ch: Seq<(u32, u32, usize)>) -> bool {
    exists|j: int| 0 <= j < ch.len()
        && e.affected_tiles@.contains((((#[trigger] ch[j]).0, ch[j].1)))
}

/// An entry last touched more than the 30-second time-to-live before
/// `clock_ms` has expired.
pub open spec fn spec_expired(last_accessed: u64, clock_ms: u64) -> bool {
    last_accessed + 30000 < clock_ms
}

/// Whether key `k` is within three cells of some changed cell.
fn near_any_change(k: PassabilityCacheKey, ch: &Vec<(u32, u32, usize)>) -> (r: bool)
    ensures
        r == spec_near_change(k, ch@),
{
    let mut j: usize = 0;
    while j < ch.len()
        invariant
            0 <= j <= ch@.len(),
            forall|j2: int| 0 <= j2 < j ==> !(
                -3 <= k.tile_x - (#[trigger] ch@[j2]).0 <= 3
                    && -3 <= k.tile_y - ch@[j2].1 <= 3),
        decreases ch@.len() - j,
    {
        let dx: i64 = k.tile_x as i64 - ch[j].0 as i64;
        let dy: i64 = k.tile_y as i64 - ch[j].1 as i64;
        if -3 <= dx && dx <= 3 && -3 <= dy && dy <= 3 {
            return true;
        }
        j = j + 1;
    }
    false
}

/// Copies a key list.
fn copy_keys(list: &Vec<PathCacheKey>) -> (r: Vec<PathCacheKey>)
    ensures
        r@ == list@,
{
    let mut out: Vec<PathCacheKey> = Vec::new();
    let mut i: usize = 0;
    while i < list.len()
        invariant
            0 <= i <= list@.len(),
            out@ =~= list@.take(i as int),
        decreases list@.len() - i,
    {
        out.push(list[i]);
        i = i + 1;
    }
    proof {
        assert(out@ =~= list@);
    }
    out
}

impl PathfindingCache {
    /// Drops every passability entry within three cells of a changed cell.
    fn invalidate_passability_near_changes(&mut self, ch: &Vec<(u32, u32, usize)>)
        requires
            old(self).wf(),
        ensures
            final(self).wf(),
            forall|k: PassabilityCacheKey| final(self).spec_pass_lookup(k)
                == (if spec_near_change(k, ch@) { None } else { old(self).spec_pass_lookup(k) }),
            final(self).path_keys == old(self).path_keys,
            final(self).path_vals == old(self).path_vals,
            final(self).spatial_keys == old(self).spatial_keys,
            final(self).spatial_vals == old(self).spatial_vals,
            final(self).terrain_version == old(self).terrain_version,
            final(self).clock_ms == old(self).clock_ms,
            final(self).stats == old(self).stats,
    {
        let mut nk: Vec<PassabilityCacheKey> = Vec::new();
        let mut nv: Vec<CachedPassability> = Vec::new();
        let mut i: usize = 0;
        while i < self.pass_keys.len()
            invariant
                old(self).wf(),
                self.pass_keys == old(self).pass_keys,
                self.pass_vals == old(self).pass_vals,
                0 <= i <= self.pass_keys@.len(),
                nk@.len() == nv@.len(),
                distinct_seq(nk@),
                forall|k2: PassabilityCacheKey| #[trigger] seq_has(nk@, k2) ==> (
                    (exists|j2: int| 0 <= j2 < i && (#[trigger] self.pass_keys@[j2]) == k2)
                        && !spec_near_change(k2, ch@)),
                forall|j2: int| 0 <= j2 < i && !spec_near_change(self.pass_keys@[j2], ch@)
                    ==> seq_has(nk@, #[trigger] self.pass_keys@[j2]),
                forall|k2: PassabilityCacheKey| seq_has(nk@, k2)
                    ==> nv@[seq_index_of(nk@, k2)]
                        == self.pass_vals@[seq_index_of(self.pass_keys@, k2)],
            decreases self.pass_keys@.len() - i,
        {
            let k = self.pass_keys[i];
            if !near_any_change(k, ch) {
                let ghost nk_pre = nk@;
                let ghost nv_pre = nv@;
                proof {
                    lemma_index_unique(self.pass_keys@, k, i as int);
                    assert(!seq_has(nk@, k)) by {
                        if seq_has(nk@, k) {
                            let j2 = choose|j2: int| 0 <= j2 < i
                                && (#[trigger] self.pass_keys@[j2]) == k;
                            assert(self.pass_keys@[j2] == self.pass_keys@[i as int]);
                        }
                    }
                    lemma_push_entry(nk@, nv@, k, self.pass_vals@[i as int]);
                }
                let v = self.pass_vals[i];
                nk.push(k);
                nv.push(v);
                proof {
                    assert forall|k2: PassabilityCacheKey| #[trigger] seq_has(nk@, k2)
                        implies ((exists|j2: int| 0 <= j2 < i + 1
                                && (#[trigger] self.pass_keys@[j2]) == k2)
                            && !spec_near_change(k2, ch@))
                    by {
                        if k2 == k {
                            assert(self.pass_keys@[i as int] == k2);
                        } else {
                            assert(seq_has(nk_pre, k2));
                        }
                    }
                    assert forall|j2: int|
                        0 <= j2 < i + 1 && !spec_near_change(self.pass_keys@[j2], ch@)
                        implies seq_has(nk@, #[trigger] self.pass_keys@[j2])
                    by {
                        if j2 == i as int {
                            assert(seq_has(nk@, k));
                        } else {
                            assert(seq_has(nk_pre, self.pass_keys@[j2]));
                            assert(self.pass_keys@[j2] != k);
                        }
                    }
                    assert forall|k2: PassabilityCacheKey| #[trigger] seq_has(nk@, k2)
                        implies nv@[seq_index_of(nk@, k2)]
                            == self.pass_vals@[seq_index_of(self.pass_keys@, k2)]
                    by {
                        if k2 == k {
                            assert(nv@[seq_index_of(nk@, k2)] == v);
                        } else {
                            assert(seq_has(nk_pre, k2));
                        }
                    }
                }
            } else {
                proof {
                    assert forall|j2: int|
                        0 <= j2 < i + 1 && !spec_near_change(self.pass_keys@[j2], ch@)
                        implies seq_has(nk@, #[trigger] self.pass_keys@[j2])
                    by {
                        if j2 == i as int {
                            assert(spec_near_change(self.pass_keys@[j2], ch@));
                        }
                    }
                }
            }
            i = i + 1;
        }
        self.pass_keys = nk;
        self.pass_vals = nv;
        proof {
            let os = old(self);
            assert forall|k: PassabilityCacheKey| self.spec_pass_lookup(k)
                == (if spec_near_change(k, ch@) { None::<CachedPassability> }
                    else { os.spec_pass_lookup(k) })
            by {
                if spec_near_change(k, ch@) {
                    assert(!seq_has(self.pass_keys@, k));
                } else {
                    if seq_has(os.pass_keys@, k) {
                        let j = seq_index_of(os.pass_keys@, k);
                        assert(0 <= j < os.pass_keys@.len() && os.pass_keys@[j] == k);
                        assert(seq_has(self.pass_keys@, k));
                        assert(self.spec_pass_lookup(k) == os.spec_pass_lookup(k));
                    } else {
                        assert(!seq_has(self.pass_keys@, k)) by {
                            if seq_has(self.pass_keys@, k) {
                                let j2 = choose|j2: int| 0 <= j2 < os.pass_keys@.len()
                                    && (#[trigger] os.pass_keys@[j2]) == k;
                            }
                        }
                    }
                }
            }
        }
    }

    /// Consumes a batch of terrain edits: if the batch is not empty, the
    /// terrain version rises by one (so every older entry reads as stale),
    /// the invalidation counter rises, passability entries within three
    /// cells of a changed cell are dropped, and exactly those cached paths
    /// whose footprint holds a changed cell are dropped; every other entry
    /// keeps its stored value. An empty batch changes nothing.
    pub fn invalidate_from_terrain_changes(&mut self, terrain_changes: &TerrainChanges)
        requires
            old(self).wf(),
            old(self).terrain_version < u64::MAX,
        ensures
            final(self).wf(),
            terrain_changes.changed_tiles@.len() == 0 ==> *final(self) == *old(self),
            terrain_changes.changed_tiles@.len() > 0 ==> {
                &&& final(self).terrain_version == old(self).terrain_version + 1
                &&& final(self).stats == (CacheStats {
                    terrain_invalidations: spec_bump(old(self).stats.terrain_invalidations),
                    cache_size: final(self).stats.cache_size,
                    ..old(self).stats
                })
                &&& final(self).stats.cache_size == spec_sat_add_usize(
                    final(self).path_keys@.len() as usize,
                    final(self).pass_keys@.len() as usize,
                )
                &&& forall|k: PassabilityCacheKey| #[trigger] final(self).spec_pass_lookup(k)
                    == (if spec_near_change(k, terrain_changes.changed_tiles@) { None }
                        else { old(self).spec_pass_lookup(k) })
                &&& forall|k: PathCacheKey| #[trigger] final(self).spec_path_lookup(k)
                    == (match old(self).spec_path_lookup(k) {
                        Some(e) => if spec_touches_change(e, terrain_changes.changed_tiles@) {
                            None
                        } else {
                            Some(e)
                        },
                        None => None,
                    })
                &&& final(self).clock_ms == old(self).clock_ms
            },
    {
        if terrain_changes.changed_tiles.len() == 0 {
            return;
        }
        self.terrain_version = self.terrain_version + 1;
        self.stats.terrain_invalidations = bump(self.stats.terrain_invalidations);
        self.invalidate_passability_near_changes(&terrain_changes.changed_tiles);
        let ghost g0 = *self;
        let ghost ch = terrain_changes.changed_tiles@;
        let mut j: usize = 0;
        while j < terrain_changes.changed_tiles.len()
            invariant
                self.wf(),
                g0.wf(),
                0 <= j <= ch.len(),
                ch == terrain_changes.changed_tiles@,
                self.pass_keys == g0.pass_keys,
                self.pass_vals == g0.pass_vals,
                self.terrain_version == g0.terrain_version,
                self.clock_ms == g0.clock_ms,
                self.stats == g0.stats,
                forall|k: PathCacheKey| (#[trigger] self.spec_path_lookup(k)) matches Some(e)
                    ==> g0.spec_path_lookup(k) == Some(e),
                forall|k: PathCacheKey| (#[trigger] g0.spec_path_lookup(k)) matches Some(e)
                    ==> ((exists|j2: int| 0 <= j2 < j
                            && e.affected_tiles@.contains((((#[trigger] ch[j2]).0, ch[j2].1))))
                        <==> self.spec_path_lookup(k) is None),
                forall|k: PathCacheKey| g0.spec_path_lookup(k) is None
                    ==> #[trigger] self.spec_path_lookup(k) is None,
                forall|c: (u32, u32), k2: PathCacheKey|
                    #[trigger] sp_has(self.spatial_keys@, self.spatial_vals@, c, k2)
                        ==> sp_has(g0.spatial_keys@, g0.spatial_vals@, c, k2),
            decreases ch.len() - j,
        {
            let c: (u32, u32) = (
                terrain_changes.changed_tiles[j].0,
                terrain_changes.changed_tiles[j].1,
            );
            let found = find_cell_key(&self.spatial_keys, c);
            let ghost sj = *self;
            match found {
                Some(ci) => {
                    proof {
                        lemma_index_unique(self.spatial_keys@, c, ci as int);
                    }
                    let keys_here = copy_keys(&self.spatial_vals[ci]);
                    proof {
                        assert forall|k2: PathCacheKey|
                            #[trigger] sp_has(sj.spatial_keys@, sj.spatial_vals@, c, k2)
                            implies keys_here@.contains(k2)
                        by {
                            let ci2 = choose|ci2: int| 0 <= ci2 < sj.spatial_keys@.len()
                                && sj.spatial_keys@[ci2] == c
                                && (#[trigger] sj.spatial_vals@[ci2])@.contains(k2);
                            lemma_index_unique(sj.spatial_keys@, c, ci2);
                            assert(ci2 == ci as int);
                        }
                    }
                    let mut m: usize = 0;
                    while m < keys_here.len()
                        invariant
                            self.wf(),
                            g0.wf(),
                            sj.wf(),
                            0 <= m <= keys_here@.len(),
                            0 <= j < ch.len(),
                            ch == terrain_changes.changed_tiles@,
                            ch[j as int].0 == c.0 && ch[j as int].1 == c.1,
                            self.pass_keys == g0.pass_keys,
                            self.pass_vals == g0.pass_vals,
                            self.terrain_version == g0.terrain_version,
                            self.clock_ms == g0.clock_ms,
                            self.stats == g0.stats,
                            forall|k2: PathCacheKey|
                                #[trigger] sp_has(sj.spatial_keys@, sj.spatial_vals@, c, k2)
                                    ==> keys_here@.contains(k2),
                            forall|k: PathCacheKey|
                                (#[trigger] self.spec_path_lookup(k)) matches Some(e)
                                    ==> g0.spec_path_lookup(k) == Some(e),
                            forall|k: PathCacheKey|
                                (#[trigger] self.spec_path_lookup(k)) matches Some(e)
                                    ==> sj.spec_path_lookup(k) == Some(e),
                            forall|k: PathCacheKey|
                                (#[trigger] g0.spec_path_lookup(k)) matches Some(e)
                                    ==> ((exists|j2: int| 0 <= j2 < j
                                            && e.affected_tiles@.contains(
                                                (((#[trigger] ch[j2]).0, ch[j2].1))))
                                        ==> self.spec_path_lookup(k) is None),
                            forall|k: PathCacheKey|
                                (#[trigger] g0.spec_path_lookup(k)) matches Some(e)
                                    ==> (self.spec_path_lookup(k) is None
                                        ==> (exists|j2: int| 0 <= j2 < j
                                            && e.affected_tiles@.contains(
                                                (((#[trigger] ch[j2]).0, ch[j2].1))))
                                            || keys_here@.contains(k)),
                            forall|k: PathCacheKey| g0.spec_path_lookup(k) is None
                                ==> #[trigger] self.spec_path_lookup(k) is None,
                            forall|m2: int| 0 <= m2 < m
                                ==> self.spec_path_lookup(#[trigger] keys_here@[m2]) is None,
                            forall|c2: (u32, u32), k2: PathCacheKey|
                                #[trigger] sp_has(self.spatial_keys@, self.spatial_vals@, c2, k2)
                                    ==> sp_has(sj.spatial_keys@, sj.spatial_vals@, c2, k2),
                            forall|c2: (u32, u32), k2: PathCacheKey|
                                #[trigger] sp_has(sj.spatial_keys@, sj.spatial_vals@, c2, k2)
                                    ==> sp_has(g0.spatial_keys@, g0.spatial_vals@, c2, k2),
                        decreases keys_here@.len() - m,
                    {
                        let kk = keys_here[m];
                        self.remove_path_entry(kk);
                        m = m + 1;
                    }
                    proof {
                        assert forall|k: PathCacheKey|
                            (#[trigger] g0.spec_path_lookup(k)) matches Some(e)
                                ==> ((exists|j2: int| 0 <= j2 < j + 1
                                        && e.affected_tiles@.contains(
                                            (((#[trigger] ch[j2]).0, ch[j2].1))))
                                    <==> self.spec_path_lookup(k) is None)
                        by {
                            if g0.spec_path_lookup(k) is None {
                                assert(self.spec_path_lookup(k) is None);
                            } else {
                            let e = g0.spec_path_lookup(k).unwrap();
                            assert(((ch[j as int].0, ch[j as int].1)) == c);
                            if e.affected_tiles@.contains(c)
                                && !(self.spec_path_lookup(k) is None) {
                                let ee = self.spec_path_lookup(k).unwrap();
                                assert(g0.spec_path_lookup(k) == Some(ee));
                                assert(ee == e);
                                let ki = seq_index_of(self.path_keys@, k);
                                assert(0 <= ki < self.path_keys@.len()
                                    && self.path_keys@[ki] == k);
                                let ti = choose|ti: int| 0 <= ti < e.affected_tiles@.len()
                                    && e.affected_tiles@[ti] == c;
                                assert(self.path_vals@[ki].affected_tiles@[ti] == c);
                                assert(sp_has(self.spatial_keys@, self.spatial_vals@, c, k));
                                assert(sp_has(sj.spatial_keys@, sj.spatial_vals@, c, k));
                                assert(keys_here@.contains(k));
                                let m2 = choose|m2: int| 0 <= m2 < keys_here@.len()
                                    && keys_here@[m2] == k;
                                assert(self.spec_path_lookup(keys_here@[m2]) is None);
                                assert(false);
                            }
                            if self.spec_path_lookup(k) is None
                                && !(exists|j2: int| 0 <= j2 < j
                                    && e.affected_tiles@.contains(
                                        (((#[trigger] ch[j2]).0, ch[j2].1)))) {
                                assert(keys_here@.contains(k));
                                let m2 = choose|m2: int| 0 <= m2 < keys_here@.len()
                                    && keys_here@[m2] == k;
                                assert(sp_has(sj.spatial_keys@, sj.spatial_vals@, c, k)) by {
                                    assert(sj.spatial_keys@[ci as int] == c
                                        && sj.spatial_vals@[ci as int]@.contains(k));
                                }
                                assert(sp_has(g0.spatial_keys@, g0.spatial_vals@, c, k));
                                let gci = choose|gci: int| 0 <= gci < g0.spatial_keys@.len()
                                    && g0.spatial_keys@[gci] == c
                                    && (#[trigger] g0.spatial_vals@[gci])@.contains(k);
                                let gj = choose|gj: int|
                                    0 <= gj < g0.spatial_vals@[gci]@.len()
                                    && g0.spatial_vals@[gci]@[gj] == k;
                                assert(seq_has(g0.path_keys@, k));
                                assert(g0.path_vals@[seq_index_of(g0.path_keys@, k)]
                                    .affected_tiles@.contains(c));
                                assert(e == g0.path_vals@[seq_index_of(g0.path_keys@, k)]);
                                assert(e.affected_tiles@.contains(c));
                                assert(e.affected_tiles@.contains(
                                    (((#[trigger] ch[j as int]).0, ch[j as int].1))));
                            }
                            }
                        }
                    }
                },
                None => {
                    proof {
                        assert forall|k: PathCacheKey|
                            (#[trigger] g0.spec_path_lookup(k)) matches Some(e)
                                ==> ((exists|j2: int| 0 <= j2 < j + 1
                                        && e.affected_tiles@.contains(
                                            (((#[trigger] ch[j2]).0, ch[j2].1))))
                                    <==> self.spec_path_lookup(k) is None)
                        by {
                            if g0.spec_path_lookup(k) is None {
                                assert(self.spec_path_lookup(k) is None);
                            } else {
                            let e = g0.spec_path_lookup(k).unwrap();
                            assert(((ch[j as int].0, ch[j as int].1)) == c);
                            if e.affected_tiles@.contains(c)
                                && !(self.spec_path_lookup(k) is None) {
                                let ee = self.spec_path_lookup(k).unwrap();
                                assert(ee == e);
                                let ki = seq_index_of(self.path_keys@, k);
                                assert(0 <= ki < self.path_keys@.len()
                                    && self.path_keys@[ki] == k);
                                let ti = choose|ti: int| 0 <= ti < e.affected_tiles@.len()
                                    && e.affected_tiles@[ti] == c;
                                assert(self.path_vals@[ki].affected_tiles@[ti] == c);
                                assert(sp_has(self.spatial_keys@, self.spatial_vals@, c, k));
                                let ci2 = choose|ci2: int|
                                    0 <= ci2 < self.spatial_keys@.len()
                                    && self.spatial_keys@[ci2] == c
                                    && (#[trigger] self.spatial_vals@[ci2])@.contains(k);
                                assert(false);
                            }
                            }
                        }
                    }
                },
            }
            j = j + 1;
        }
        self.update_stats();
        proof {
            assert(j == ch.len());
            let os = old(self);
            assert(g0.path_keys == os.path_keys && g0.path_vals == os.path_vals);
            assert forall|k: PathCacheKey| #[trigger] os.spec_path_lookup(k)
                == g0.spec_path_lookup(k)
            by {
                assert(os.path_keys@ == g0.path_keys@ && os.path_vals@ == g0.path_vals@);
            }
            assert forall|k: PassabilityCacheKey| #[trigger] self.spec_pass_lookup(k)
                == (if spec_near_change(k, ch) { None::<CachedPassability> }
                    else { os.spec_pass_lookup(k) })
            by {
                assert(self.pass_keys == g0.pass_keys && self.pass_vals == g0.pass_vals);
                assert(g0.spec_pass_lookup(k)
                    == (if spec_near_change(k, ch) { None::<CachedPassability> }
                        else { os.spec_pass_lookup(k) }));
            }
            assert forall|k: PathCacheKey| #[trigger] self.spec_path_lookup(k)
                == (match g0.spec_path_lookup(k) {
                    Some(e) => if spec_touches_change(e, ch) { None } else { Some(e) },
                    None => None,
                })
            by {
                match g0.spec_path_lookup(k) {
                    Some(e) => {
                        if spec_touches_change(e, ch) {
                            let j2 = choose|j2: int| 0 <= j2 < ch.len()
                                && e.affected_tiles@.contains(
                                    (((#[trigger] ch[j2]).0, ch[j2].1)));
                            assert(self.spec_path_lookup(k) is None);
                        } else {
                            if self.spec_path_lookup(k) is None {
                                let j2 = choose|j2: int| 0 <= j2 < j
                                    && e.affected_tiles@.contains(
                                        (((#[trigger] ch[j2]).0, ch[j2].1)));
                                assert(spec_touches_change(e, ch));
                            }
                            assert(self.spec_path_lookup(k) matches Some(e2) ==> e2 == e);
                        }
                    },
                    None => {},
                }
            }
        }
    }

    /// The path-tier hit and miss counters, for monitoring; the hit ratio
    /// is their quotient.
    pub fn get_hit_ratio(&self) -> (r: (u64, u64))
        ensures
            r == (self.stats.path_cache_hits, self.stats.path_cache_misses),
    {
        (self.stats.path_cache_hits, self.stats.path_cache_misses)
    }
}

impl Default for PathfindingCache {
    fn default() -> (r: PathfindingCache)
        ensures
            r.wf(),
            r.terrain_version == 1,
            r.clock_ms == 0,
            forall|k: PathCacheKey| r.spec_path_lookup(k) is None,
            forall|k: PassabilityCacheKey| r.spec_pass_lookup(k) is None,
            r.stats.path_cache_hits == 0 && r.stats.path_cache_misses == 0,
            r.stats.passability_cache_hits == 0 && r.stats.passability_cache_misses == 0,
            r.stats.terrain_invalidations == 0 && r.stats.cache_size == 0,
    {
        PathfindingCache::new()
    }
}

impl PathfindingCache {
    /// Drops every passability entry older than the time-to-live.
    fn cleanup_pass_expired(&mut self)
        requires
            old(self).wf(),
        ensures
            final(self).wf(),
            forall|k: PassabilityCacheKey| #[trigger] final(self).spec_pass_lookup(k)
                == (match old(self).spec_pass_lookup(k) {
                    Some(e) => if spec_expired(e.last_accessed, old(self).clock_ms) {
                        None
                    } else {
                        Some(e)
                    },
                    None => None,
                }),
            final(self).path_keys == old(self).path_keys,
            final(self).path_vals == old(self).path_vals,
            final(self).spatial_keys == old(self).spatial_keys,
            final(self).spatial_vals == old(self).spatial_vals,
            final(self).terrain_version == old(self).terrain_version,
            final(self).clock_ms == old(self).clock_ms,
            final(self).stats == old(self).stats,
    {
        let mut nk: Vec<PassabilityCacheKey> = Vec::new();
        let mut nv: Vec<CachedPassability> = Vec::new();
        let mut i: usize = 0;
        while i < self.pass_keys.len()
            invariant
                old(self).wf(),
                *self == *old(self),
                0 <= i <= self.pass_keys@.len(),
                nk@.len() == nv@.len(),
                distinct_seq(nk@),
                forall|k2: PassabilityCacheKey| #[trigger] seq_has(nk@, k2) ==> (
                    (exists|j2: int| 0 <= j2 < i && (#[trigger] self.pass_keys@[j2]) == k2)
                        && !spec_expired(
                            self.pass_vals@[seq_index_of(self.pass_keys@, k2)].last_accessed,
                            self.clock_ms)),
                forall|j2: int| 0 <= j2 < i
                    && !spec_expired(self.pass_vals@[j2].last_accessed, self.clock_ms)
                    ==> seq_has(nk@, #[trigger] self.pass_keys@[j2]),
                forall|k2: PassabilityCacheKey| #[trigger] seq_has(nk@, k2)
                    ==> nv@[seq_index_of(nk@, k2)]
                        == self.pass_vals@[seq_index_of(self.pass_keys@, k2)],
            decreases self.pass_keys@.len() - i,
        {
            let k = self.pass_keys[i];
            let keep: bool = !((self.pass_vals[i].last_accessed as u128 + 30000) < self.clock_ms as u128);
            proof {
                lemma_index_unique(self.pass_keys@, k, i as int);
            }
            if keep {
                let ghost nk_pre = nk@;
                proof {
                    assert(!seq_has(nk@, k)) by {
                        if seq_has(nk@, k) {
                            let j2 = choose|j2: int| 0 <= j2 < i
                                && (#[trigger] self.pass_keys@[j2]) == k;
                            assert(self.pass_keys@[j2] == self.pass_keys@[i as int]);
                        }
                    }
                    lemma_push_entry(nk@, nv@, k, self.pass_vals@[i as int]);
                }
                let v = self.pass_vals[i];
                nk.push(k);
                nv.push(v);
                proof {
                    assert forall|k2: PassabilityCacheKey| #[trigger] seq_has(nk@, k2)
                        implies ((exists|j2: int| 0 <= j2 < i + 1
                                && (#[trigger] self.pass_keys@[j2]) == k2)
                            && !spec_expired(
                                self.pass_vals@[seq_index_of(self.pass_keys@, k2)].last_accessed,
                                self.clock_ms))
                    by {
                        if k2 == k {
                            assert(self.pass_keys@[i as int] == k2);
                        } else {
                            assert(seq_has(nk_pre, k2));
                        }
                    }
                    assert forall|j2: int| 0 <= j2 < i + 1
                        && !spec_expired(self.pass_vals@[j2].last_accessed, self.clock_ms)
                        implies seq_has(nk@, #[trigger] self.pass_keys@[j2])
                    by {
                        if j2 == i as int {
                            assert(seq_has(nk@, k));
                        } else {
                            assert(seq_has(nk_pre, self.pass_keys@[j2]));
                            assert(self.pass_keys@[j2] != k);
                        }
                    }
                    assert forall|k2: PassabilityCacheKey| #[trigger] seq_has(nk@, k2)
                        implies nv@[seq_index_of(nk@, k2)]
                            == self.pass_vals@[seq_index_of(self.pass_keys@, k2)]
                    by {
                        if k2 == k {
                            assert(nv@[seq_index_of(nk@, k2)] == v);
                        } else {
                            assert(seq_has(nk_pre, k2));
                        }
                    }
                }
            } else {
                proof {
                    assert forall|j2: int| 0 <= j2 < i + 1
                        && !spec_expired(self.pass_vals@[j2].last_accessed, self.clock_ms)
                        implies seq_has(nk@, #[trigger] self.pass_keys@[j2])
                    by {
                        if j2 == i as int {
                            assert(spec_expired(self.pass_vals@[j2].last_accessed, self.clock_ms));
                        }
                    }
                }
            }
            i = i + 1;
        }
        self.pass_keys = nk;
        self.pass_vals = nv;
        proof {
            let os = old(self);
            assert forall|k: PassabilityCacheKey| #[trigger] self.spec_pass_lookup(k)
                == (match os.spec_pass_lookup(k) {
                    Some(e) => if spec_expired(e.last_accessed, os.clock_ms) {
                        None::<CachedPassability>
                    } else {
                        Some(e)
                    },
                    None => None::<CachedPassability>,
                })
            by {
                if seq_has(os.pass_keys@, k) {
                    let j = seq_index_of(os.pass_keys@, k);
                    assert(0 <= j < os.pass_keys@.len() && os.pass_keys@[j] == k);
                    if spec_expired(os.pass_vals@[j].last_accessed, os.clock_ms) {
                        assert(!seq_has(self.pass_keys@, k)) by {
                            if seq_has(self.pass_keys@, k) {
                                let j2 = choose|j2: int| 0 <= j2 < os.pass_keys@.len()
                                    && (#[trigger] os.pass_keys@[j2]) == k;
                                lemma_index_unique(os.pass_keys@, k, j2);
                            }
                        }
                    } else {
                        assert(seq_has(self.pass_keys@, k));
                    }
                } else {
                    assert(!seq_has(self.pass_keys@, k)) by {
                        if seq_has(self.pass_keys@, k) {
                            let j2 = choose|j2: int| 0 <= j2 < os.pass_keys@.len()
                                && (#[trigger] os.pass_keys@[j2]) == k;
                        }
                    }
                }
            }
        }
    }

    /// Evicts every cached path and passability answer whose last access
    /// lies more than the 30-second time-to-live before the cache's clock;
    /// fresh entries keep their stored values.
    pub fn cleanup_expired_entries(&mut self)
        requires
            old(self).wf(),
        ensures
            final(self).wf(),
            forall|k: PathCacheKey| #[trigger] final(self).spec_path_lookup(k)
                == (match old(self).spec_path_lookup(k) {
                    Some(e) => if spec_expired(e.last_accessed, old(self).clock_ms) {
                        None
                    } else {
                        Some(e)
                    },
                    None => None,
                }),
            forall|k: PassabilityCacheKey| #[trigger] final(self).spec_pass_lookup(k)
                == (match old(self).spec_pass_lookup(k) {
                    Some(e) => if spec_expired(e.last_accessed, old(self).clock_ms) {
                        None
                    } else {
                        Some(e)
                    },
                    None => None,
                }),
            final(self).terrain_version == old(self).terrain_version,
            final(self).clock_ms == old(self).clock_ms,
            final(self).stats == (CacheStats {
                cache_size: final(self).stats.cache_size, ..old(self).stats
            }),
            final(self).stats.cache_size == spec_sat_add_usize(
                final(self).path_keys@.len() as usize,
                final(self).pass_keys@.len() as usize,
            ),
    {
        let mut expired: Vec<PathCacheKey> = Vec::new();
        let mut i: usize = 0;
        while i < self.path_keys.len()
            invariant
                old(self).wf(),
                *self == *old(self),
                0 <= i <= self.path_keys@.len(),
                forall|k2: PathCacheKey| #[trigger] expired@.contains(k2) ==> (
                    (exists|j2: int| 0 <= j2 < i && (#[trigger] self.path_keys@[j2]) == k2)
                        && spec_expired(
                            self.path_vals@[seq_index_of(self.path_keys@, k2)].last_accessed,
                            self.clock_ms)),
                forall|j2: int| 0 <= j2 < i
                    && spec_expired(self.path_vals@[j2].last_accessed, self.clock_ms)
                    ==> expired@.contains(#[trigger] self.path_keys@[j2]),
            decreases self.path_keys@.len() - i,
        {
            let k = self.path_keys[i];
            proof {
                lemma_index_unique(self.path_keys@, k, i as int);
            }
            let ghost ex_pre = expired@;
            if (self.path_vals[i].last_accessed as u128 + 30000) < self.clock_ms as u128 {
                expired.push(k);
            }
            proof {
                assert forall|k2: PathCacheKey| #[trigger] expired@.contains(k2)
                    implies ((exists|j2: int| 0 <= j2 < i + 1
                            && (#[trigger] self.path_keys@[j2]) == k2)
                        && spec_expired(
                            self.path_vals@[seq_index_of(self.path_keys@, k2)].last_accessed,
                            self.clock_ms))
                by {
                    if ex_pre.contains(k2) {
                        let j2 = choose|j2: int| 0 <= j2 < i
                            && (#[trigger] self.path_keys@[j2]) == k2;
                    } else {
                        let j3 = choose|j3: int| 0 <= j3 < expired@.len()
                            && expired@[j3] == k2;
                        assert(j3 == expired@.len() - 1);
                        assert(k2 == k);
                        assert(self.path_keys@[i as int] == k2);
                    }
                }
                assert forall|j2: int| 0 <= j2 < i + 1
                    && spec_expired(self.path_vals@[j2].last_accessed, self.clock_ms)
                    implies expired@.contains(#[trigger] self.path_keys@[j2])
                by {
                    if j2 == i as int {
                        assert(expired@.last() == k);
                    } else {
                        assert(ex_pre.contains(self.path_keys@[j2]));
                        let j3 = choose|j3: int| 0 <= j3 < ex_pre.len()
                            && ex_pre[j3] == self.path_keys@[j2];
                        assert(expired@[j3] == self.path_keys@[j2]);
                    }
                }
            }
            i = i + 1;
        }
        let ghost g0 = *self;
        let mut m: usize = 0;
        while m < expired.len()
            invariant
                self.wf(),
                g0.wf(),
                g0 == *old(self),
                0 <= m <= expired@.len(),
                forall|k2: PathCacheKey| #[trigger] expired@.contains(k2) ==> (
                    seq_has(g0.path_keys@, k2)
                        && spec_expired(
                            g0.path_vals@[seq_index_of(g0.path_keys@, k2)].last_accessed,
                            g0.clock_ms)),
                forall|j2: int| 0 <= j2 < g0.path_keys@.len()
                    && spec_expired(g0.path_vals@[j2].last_accessed, g0.clock_ms)
                    ==> expired@.contains(#[trigger] g0.path_keys@[j2]),
                self.pass_keys == g0.pass_keys,
                self.pass_vals == g0.pass_vals,
                self.terrain_version == g0.terrain_version,
                self.clock_ms == g0.clock_ms,
                self.stats == g0.stats,
                forall|k: PathCacheKey| #[trigger] self.spec_path_lookup(k)
                    == (if (exists|m2: int| 0 <= m2 < m && (#[trigger] expired@[m2]) == k) {
                        None
                    } else {
                        g0.spec_path_lookup(k)
                    }),
            decreases expired@.len() - m,
        {
            let kk = expired[m];
            self.remove_path_entry(kk);
            proof {
                assert forall|k: PathCacheKey| #[trigger] self.spec_path_lookup(k)
                    == (if (exists|m2: int| 0 <= m2 < m + 1 && (#[trigger] expired@[m2]) == k) {
                        None::<CachedPathResult>
                    } else {
                        g0.spec_path_lookup(k)
                    })
                by {
                    if k == kk {
                        assert(expired@[m as int] == k);
                    } else {
                        if exists|m2: int| 0 <= m2 < m && (#[trigger] expired@[m2]) == k {
                            let m2 = choose|m2: int| 0 <= m2 < m
                                && (#[trigger] expired@[m2]) == k;
                        } else {
                            if exists|m2: int| 0 <= m2 < m + 1
                                && (#[trigger] expired@[m2]) == k {
                                let m2 = choose|m2: int| 0 <= m2 < m + 1
                                    && (#[trigger] expired@[m2]) == k;
                                assert(m2 == m as int);
                                assert(false);
                            }
                        }
                    }
                }
            }
            m = m + 1;
        }
        proof {
            assert(m == expired@.len());
        }
        let ghost g1 = *self;
        self.cleanup_pass_expired();
        let ghost g2 = *self;
        self.update_stats();
        proof {
            let os = old(self);
            assert(m == expired@.len());
            assert(self.path_keys == g1.path_keys && self.path_vals == g1.path_vals);
            assert forall|k: PathCacheKey| #[trigger] self.spec_path_lookup(k)
                == g1.spec_path_lookup(k)
            by {
                assert(self.path_keys@ == g1.path_keys@ && self.path_vals@ == g1.path_vals@);
            }
            assert(self.pass_keys == g2.pass_keys && self.pass_vals == g2.pass_vals);
            assert forall|k: PassabilityCacheKey| #[trigger] self.spec_pass_lookup(k)
                == g2.spec_pass_lookup(k)
            by {
                assert(self.pass_keys@ == g2.pass_keys@ && self.pass_vals@ == g2.pass_vals@);
            }
            assert forall|k: PassabilityCacheKey| #[trigger] self.spec_pass_lookup(k)
                == (match os.spec_pass_lookup(k) {
                    Some(e) => if spec_expired(e.last_accessed, os.clock_ms) {
                        None::<CachedPassability>
                    } else {
                        Some(e)
                    },
                    None => None::<CachedPassability>,
                })
            by {
                assert(g1.pass_keys == os.pass_keys && g1.pass_vals == os.pass_vals);
                assert(g1.spec_pass_lookup(k) == os.spec_pass_lookup(k)) by {
                    assert(g1.pass_keys@ == os.pass_keys@ && g1.pass_vals@ == os.pass_vals@);
                }
            }
            assert forall|k: PathCacheKey| #[trigger] g1.spec_path_lookup(k)
                == (match os.spec_path_lookup(k) {
                    Some(e) => if spec_expired(e.last_accessed, os.clock_ms) {
                        None::<CachedPathResult>
                    } else {
                        Some(e)
                    },
                    None => None::<CachedPathResult>,
                })
            by {
                match os.spec_path_lookup(k) {
                    Some(e) => {
                        let j = seq_index_of(os.path_keys@, k);
                        assert(0 <= j < os.path_keys@.len() && os.path_keys@[j] == k);
                        assert(e == os.path_vals@[j]);
                        if spec_expired(e.last_accessed, os.clock_ms) {
                            assert(expired@.contains(os.path_keys@[j]));
                            let m2 = choose|m2: int| 0 <= m2 < expired@.len()
                                && expired@[m2] == k;
                            assert(g1.spec_path_lookup(k) is None);
                        } else {
                            assert(!(exists|m2: int| 0 <= m2 < expired@.len()
                                && (#[trigger] expired@[m2]) == k)) by {
                                if exists|m2: int| 0 <= m2 < expired@.len()
                                    && (#[trigger] expired@[m2]) == k {
                                    let m2 = choose|m2: int| 0 <= m2 < expired@.len()
                                        && (#[trigger] expired@[m2]) == k;
                                    assert(expired@.contains(k));
                                    assert(seq_index_of(os.path_keys@, k) == j);
                                }
                            }
                        }
                    },
                    None => {
                        assert(!(exists|m2: int| 0 <= m2 < expired@.len()
                            && (#[trigger] expired@[m2]) == k)) by {
                            if exists|m2: int| 0 <= m2 < expired@.len()
                                && (#[trigger] expired@[m2]) == k {
                                let m2 = choose|m2: int| 0 <= m2 < expired@.len()
                                    && (#[trigger] expired@[m2]) == k;
                                assert(expired@.contains(k));
                            }
                        }
                    },
                }
            }
        }
    }
}

/// `c + 1`, staying put at the maximum.
pub open spec fn spec_bump(c: u64) -> u64 {
    if c == u64::MAX { c } else { (c + 1) as u64 }
}

/// Increments a counter, saturating at the maximum.
fn bump(c: u64) -> (r: u64)
    ensures
        r == spec_bump(c),
{
    if c < u64::MAX { c + 1 } else { c }
}

/// Finds a passability key in the list.
fn find_pass_key(keys: &Vec<PassabilityCacheKey>, k: PassabilityCacheKey) -> (r: Option<usize>)
    ensures
        match r {
            Some(i) => 0 <= i < keys@.len() && keys@[i as int] == k,
            None => forall|j: int| 0 <= j < keys@.len() ==> keys@[j] != k,
        },
{
    let mut i: usize = 0;
    while i < keys.len()
        invariant
            0 <= i <= keys@.len(),
            forall|j: int| 0 <= j < i ==> keys@[j] != k,
        decreases keys@.len() - i,
    {
        if keys[i] == k {
            return Some(i);
        }
        i = i + 1;
    }
    None
}

/// An occurrence of `x` in a distinct list is the position `seq_index_of`
/// picks.
proof fn lemma_index_unique<T>(s: Seq<T>, x: T, i: int)
    requires
        distinct_seq(s),
        0 <= i < s.len(),
        s[i] == x,
    ensures
        seq_has(s, x),
        seq_index_of(s, x) == i,
{
    assert(seq_has(s, x));
    let j = seq_index_of(s, x);
    assert(0 <= j < s.len() && s[j] == x);
    if j < i {
        assert(s[j] != s[i]);
    } else if i < j {
        assert(s[i] != s[j]);
    }
}

/// Updating the value at an existing key changes that key's lookup and no
/// other.
proof fn lemma_update_value<K, V>(ks: Seq<K>, vs0: Seq<V>, vs1: Seq<V>, i: int)
    requires
        distinct_seq(ks),
        ks.len() == vs0.len(),
        0 <= i < ks.len(),
        vs1 == vs0.update(i, vs1[i]),
    ensures
        vs1.len() == vs0.len(),
        seq_index_of(ks, ks[i]) == i,
        forall|k: K| k != ks[i] && seq_has(ks, k)
            ==> vs1[seq_index_of(ks, k)] == vs0[seq_index_of(ks, k)],
    {
        lemma_index_unique(ks, ks[i], i);
        assert forall|k: K| k != ks[i] && seq_has(ks, k)
            implies vs1[seq_index_of(ks, k)] == vs0[seq_index_of(ks, k)]
        by {
            let j = seq_index_of(ks, k);
            assert(0 <= j < ks.len() && ks[j] == k);
            assert(j != i);
        }
    }

/// Removing the entry at `i` deletes that key's lookup and keeps every
/// other lookup.
proof fn lemma_remove_entry<K, V>(ks0: Seq<K>, vs0: Seq<V>, i: int)
    requires
        distinct_seq(ks0),
        ks0.len() == vs0.len(),
        0 <= i < ks0.len(),
    ensures
        distinct_seq(ks0.remove(i)),
        ks0.remove(i).len() == vs0.remove(i).len(),
        !seq_has(ks0.remove(i), ks0[i]),
        forall|k: K| k != ks0[i] ==> seq_has(ks0.remove(i), k) == seq_has(ks0, k),
        forall|k: K| k != ks0[i] && seq_has(ks0, k)
            ==> vs0.remove(i)[seq_index_of(ks0.remove(i), k)]
                == vs0[seq_index_of(ks0, k)],
{
    let ks1 = ks0.remove(i);
    let vs1 = vs0.remove(i);
    assert forall|a: int, b: int| 0 <= a < b < ks1.len() implies ks1[a] != ks1[b] by {
        let a0 = if a < i { a } else { a + 1 };
        let b0 = if b < i { b } else { b + 1 };
        assert(ks1[a] == ks0[a0] && ks1[b] == ks0[b0]);
    }
    assert forall|j: int| 0 <= j < ks1.len() implies ks1[j] != ks0[i] by {
        let j0 = if j < i { j } else { j + 1 };
        assert(ks1[j] == ks0[j0]);
        assert(j0 != i);
    }
    assert forall|k: K| k != ks0[i] implies seq_has(ks1, k) == seq_has(ks0, k) by {
        if seq_has(ks0, k) {
            let j0 = seq_index_of(ks0, k);
            assert(0 <= j0 < ks0.len() && ks0[j0] == k);
            let j1 = if j0 < i { j0 } else { j0 - 1 };
            assert(ks1[j1] == ks0[j0]);
            assert(seq_has(ks1, k));
        } else {
            if seq_has(ks1, k) {
                let j1 = seq_index_of(ks1, k);
                assert(0 <= j1 < ks1.len() && ks1[j1] == k);
                let j0 = if j1 < i { j1 } else { j1 + 1 };
                assert(ks0[j0] == ks1[j1]);
                assert(seq_has(ks0, k));
            }
        }
    }
    assert forall|k: K| k != ks0[i] && seq_has(ks0, k)
        implies vs1[seq_index_of(ks1, k)] == vs0[seq_index_of(ks0, k)]
    by {
        let j0 = seq_index_of(ks0, k);
        assert(0 <= j0 < ks0.len() && ks0[j0] == k);
        assert(j0 != i);
        let j1 = if j0 < i { j0 } else { j0 - 1 };
        assert(ks1[j1] == k);
        assert(forall|a: int, b: int| 0 <= a < b < ks1.len() ==> ks1[a] != ks1[b]);
        lemma_index_unique(ks1, k, j1);
        assert(vs1[j1] == vs0[j0]);
    }
}

/// Appending a fresh key adds its lookup and keeps every other lookup.
proof fn lemma_push_entry<K, V>(ks0: Seq<K>, vs0: Seq<V>, k: K, v: V)
    requires
        distinct_seq(ks0),
        ks0.len() == vs0.len(),
        !seq_has(ks0, k),
    ensures
        distinct_seq(ks0.push(k)),
        ks0.push(k).len() == vs0.push(v).len(),
        seq_has(ks0.push(k), k),
        seq_index_of(ks0.push(k), k) == ks0.len(),
        vs0.push(v)[seq_index_of(ks0.push(k), k)] == v,
        forall|k2: K| k2 != k ==> seq_has(ks0.push(k), k2) == seq_has(ks0, k2),
        forall|k2: K| k2 != k && seq_has(ks0, k2)
            ==> vs0.push(v)[seq_index_of(ks0.push(k), k2)] == vs0[seq_index_of(ks0, k2)],
{
    let ks1 = ks0.push(k);
    let vs1 = vs0.push(v);
    assert forall|a: int, b: int| 0 <= a < b < ks1.len() implies ks1[a] != ks1[b] by {
        if b == ks0.len() {
            assert(ks1[a] == ks0[a]);
            if ks0[a] == k {
                assert(seq_has(ks0, k));
            }
        } else {
            assert(ks1[a] == ks0[a] && ks1[b] == ks0[b]);
        }
    }
    lemma_index_unique(ks1, k, ks0.len() as int);
    assert forall|k2: K| k2 != k implies seq_has(ks1, k2) == seq_has(ks0, k2) by {
        if seq_has(ks0, k2) {
            let j = seq_index_of(ks0, k2);
            assert(ks1[j] == ks0[j]);
            assert(seq_has(ks1, k2));
        } else if seq_has(ks1, k2) {
            let j = seq_index_of(ks1, k2);
            assert(0 <= j < ks1.len() && ks1[j] == k2);
            assert(j != ks0.len());
            assert(ks0[j] == k2);
            assert(seq_has(ks0, k2));
        }
    }
    assert forall|k2: K| k2 != k && seq_has(ks0, k2)
        implies vs1[seq_index_of(ks1, k2)] == vs0[seq_index_of(ks0, k2)]
    by {
        let j = seq_index_of(ks0, k2);
        assert(0 <= j < ks0.len() && ks0[j] == k2);
        assert(ks1[j] == k2);
        lemma_index_unique(ks1, k2, j);
    }
}

} // verus!
