//! The request scheduler: collects path requests, orders them by priority,
//! resolves cache hits synchronously, hands cache misses out as tasks for a
//! worker pool, and reconciles completed tasks back into the cache and into
//! caller-visible results.
//!
//! The scheduler itself is a single-threaded state machine: a request is
//! `Requested` until a tick either resolves it from the cache or dispatches
//! it, `Dispatched` until its result is handed back, and `Resolved` until
//! the caller polls the result away. The driver loop that actually runs
//! dispatched tasks (on whatever concurrency primitive it likes) lives
//! outside the library and talks to the scheduler through plain values.

use vstd::prelude::*;

verus! {

use crate::grid::{TerrainMap, GroundConfigs, TerrainChanges};
use crate::cache::{
    PathfindingCache, PathCacheKey, spec_path_key, path_view, spec_near_change,
    spec_touches_change, spec_in_footprint,
};
use crate::clearance::MAX_AGENT_SIZE;
use crate::search::{SearchMode, spec_min_cost_path, spec_is_path, spec_waypoints_of};

/// Priority of a path request; later variants outrank earlier ones.
#[derive(Debug, Clone, Copy, PartialEq, Eq, Structural, PartialOrd, Ord, Hash)]
pub enum PathfindingPriority {
    Low,
    Normal,
    High,
    Critical,
}

/// The numeric rank of a priority: `Low` 0 up to `Critical` 3.
pub open spec fn spec_rank(p: PathfindingPriority) -> int {
    match p {
        PathfindingPriority::Low => 0int,
        PathfindingPriority::Normal => 1int,
        PathfindingPriority::High => 2int,
        PathfindingPriority::Critical => 3int,
    }
}

impl PathfindingPriority {
    /// The numeric rank of this priority.
    pub fn rank(&self) -> (r: u8)
        ensures
            r as int == spec_rank(*self),
    {
        match self {
            PathfindingPriority::Low => 0,
            PathfindingPriority::Normal => 1,
            PathfindingPriority::High => 2,
            PathfindingPriority::Critical => 3,
        }
    }
}

/// A pending path request.
#[derive(Debug, Clone, Copy)]
pub struct PathfindingRequest {
    pub start: (i64, i64),
    pub goal: (i64, i64),
    pub size: u32,
    pub priority: PathfindingPriority,
    pub request_id: u64,
}

impl PathfindingRequest {
    /// A request at `Normal` priority; the scheduler assigns the id.
    pub fn new(start: (i64, i64), goal: (i64, i64), size: u32) -> (r: PathfindingRequest)
        ensures
            r == (PathfindingRequest {
                start, goal, size,
                priority: PathfindingPriority::Normal,
                request_id: 0u64,
            }),
    {
        PathfindingRequest {
            start, goal, size,
            priority: PathfindingPriority::Normal,
            request_id: 0,
        }
    }

    /// The same request at the given priority.
    pub fn with_priority(self, priority: PathfindingPriority) -> (r: PathfindingRequest)
        ensures
            r == (PathfindingRequest { priority, ..self }),
    {
        PathfindingRequest { priority, ..self }
    }
}

/// An in-flight unit of work: the input copy of a dispatched request. The
/// driver owns whatever computation handle it pairs this with.
#[derive(Debug, Clone, Copy)]
pub struct PathfindingTask {
    pub start: (i64, i64),
    pub goal: (i64, i64),
    pub size: u32,
    pub request_id: u64,
}

/// The outcome of a path computation, echoing its request.
pub struct PathfindingResult {
    pub path: Option<Vec<(i64, i64)>>,
    pub start: (i64, i64),
    pub goal: (i64, i64),
    pub size: u32,
    pub request_id: u64,
}

/// Where a request stands in its lifecycle.
#[derive(Debug, Clone, Copy, PartialEq, Eq, Structural)]
pub enum RequestState {
    Requested,
    Dispatched,
    Resolved,
}

/// Issues request ids; wraps around at the top of the range.
#[derive(Debug, Clone, Copy, PartialEq, Eq, Structural)]
pub struct PathfindingRequestCounter {
    pub next_id: u64,
}

impl Default for PathfindingRequestCounter {
    fn default() -> (r: PathfindingRequestCounter)
        ensures
            r.next_id == 0,
    {
        PathfindingRequestCounter { next_id: 0 }
    }
}

impl PathfindingRequestCounter {
    /// The next id; the counter wraps to 0 after `u64::MAX` without
    /// panicking.
    pub fn next_id(&mut self) -> (r: u64)
        ensures
            r == old(self).next_id,
            final(self).next_id == (if old(self).next_id == u64::MAX {
                0u64
            } else {
                (old(self).next_id + 1) as u64
            }),
    {
        let id = self.next_id;
        self.next_id = if self.next_id == u64::MAX { 0 } else { self.next_id + 1 };
        id
    }
}

/// A pathfinding cache to share across the whole pipeline.
pub struct GlobalPathfindingCache {
    pub cache: PathfindingCache,
}

impl Default for GlobalPathfindingCache {
    fn default() -> (r: GlobalPathfindingCache)
        ensures
            r.cache.wf(),
            r.cache.terrain_version == 1,
            r.cache.clock_ms == 0,
    {
        GlobalPathfindingCache { cache: PathfindingCache::new() }
    }
}

/// Requests ordered by descending priority rank.
pub open spec fn spec_sorted_by_priority_desc(s: Seq<PathfindingRequest>) -> bool {
    forall|i: int, j: int| 0 <= i < j < s.len()
        ==> spec_rank((#[trigger] s[i]).priority) >= spec_rank((#[trigger] s[j]).priority)
}

/// Sorts requests by descending priority; requests of equal priority keep
/// no guaranteed relative order.
pub fn sort_requests_by_priority(reqs: &Vec<PathfindingRequest>) -> (r: Vec<PathfindingRequest>)
    ensures
        spec_sorted_by_priority_desc(r@),
        r@.to_multiset() == reqs@.to_multiset(),
        r@.len() == reqs@.len(),
        forall|x: PathfindingRequest| r@.contains(x) == reqs@.contains(x),
{
    broadcast use vstd::seq_lib::group_to_multiset_ensures;
    broadcast use vstd::seq_lib::to_multiset_insert;
    broadcast use vstd::seq_lib::to_multiset_build;

    let mut out: Vec<PathfindingRequest> = Vec::new();
    let mut i: usize = 0;
    while i < reqs.len()
        invariant
            0 <= i <= reqs@.len(),
            out@.len() == i,
            spec_sorted_by_priority_desc(out@),
            out@.to_multiset() == reqs@.take(i as int).to_multiset(),
        decreases reqs@.len() - i,
    {
        let x = reqs[i];
        let mut pos: usize = 0;
        while pos < out.len() && out[pos].priority.rank() >= x.priority.rank()
            invariant
                0 <= pos <= out@.len(),
                forall|a: int| 0 <= a < pos
                    ==> spec_rank((#[trigger] out@[a]).priority) >= spec_rank(x.priority),
                spec_sorted_by_priority_desc(out@),
            decreases out@.len() - pos,
        {
            pos = pos + 1;
        }
        let ghost out_pre = out@;
        out.insert(pos, x);
        proof {
            assert forall|a: int, b: int| 0 <= a < b < out@.len()
                implies spec_rank((#[trigger] out@[a]).priority)
                    >= spec_rank((#[trigger] out@[b]).priority)
            by {
                let a0 = if a < pos as int { a } else { a - 1 };
                let b0 = if b < pos as int { b } else { b - 1 };
                if a == pos as int {
                    assert(out@[b] == out_pre[b0]);
                    assert(pos as int <= b0);
                    if (pos as int) < out_pre.len() {
                        assert(spec_rank(x.priority) > spec_rank(out_pre[pos as int].priority)
                            || pos as int == out_pre.len());
                    }
                } else if b == pos as int {
                    assert(out@[a] == out_pre[a0]);
                } else {
                    assert(out@[a] == out_pre[a0] && out@[b] == out_pre[b0]);
                }
            }
            assert(reqs@.take(i + 1 as int) =~= reqs@.take(i as int).push(x));
            vstd::seq_lib::to_multiset_build(reqs@.take(i as int), x);
            vstd::seq_lib::to_multiset_insert(out_pre, pos as int, x);
            assert(reqs@.take(i as int).push(x).to_multiset()
                =~= reqs@.take(i as int).to_multiset().insert(x));
            assert(reqs@.take(i + 1 as int).to_multiset()
                =~= reqs@.take(i as int).to_multiset().insert(x));
        }
        i = i + 1;
    }
    proof {
        assert(reqs@.take(reqs@.len() as int) =~= reqs@);
        assert forall|x: PathfindingRequest| out@.contains(x) == reqs@.contains(x) by {
            if out@.contains(x) {
                assert(out@.to_multiset().contains(x));
                assert(reqs@.to_multiset().contains(x));
            }
            if reqs@.contains(x) {
                assert(reqs@.to_multiset().contains(x));
                assert(out@.to_multiset().contains(x));
            }
        }
    }
    out
}

/// Whether a task is the dispatched copy of a request.
pub open spec fn spec_task_of(t: PathfindingTask, req: PathfindingRequest) -> bool {
    t.start == req.start && t.goal == req.goal && t.size == req.size
        && t.request_id == req.request_id
}

/// Whether a result echoes a request.
pub open spec fn spec_result_of(res: &PathfindingResult, req: PathfindingRequest) -> bool {
    res.start == req.start && res.goal == req.goal && res.size == req.size
        && res.request_id == req.request_id
}

/// The task is the dispatched copy of some request in the list.
pub open spec fn spec_task_from(t: PathfindingTask, pend: Seq<PathfindingRequest>) -> bool {
    exists|i: int| 0 <= i < pend.len() && spec_task_of(t, #[trigger] pend[i])
}

/// The result echoes some request in the list.
pub open spec fn spec_result_from(res: PathfindingResult, pend: Seq<PathfindingRequest>) -> bool {
    exists|i: int| 0 <= i < pend.len() && spec_result_of(&res, #[trigger] pend[i])
}

/// Whether the cache holds an answer under `k` stored at the current
/// terrain version — the condition under which a lookup hits.
pub open spec fn spec_current_hit(c: &PathfindingCache, k: PathCacheKey) -> bool {
    match c.spec_path_lookup(k) {
        Some(e) => e.terrain_version == c.terrain_version,
        None => false,
    }
}

/// The cache key a request's endpoints map to, when both lie on the grid.
pub open spec fn spec_tick_key(
    map: &TerrainMap, start: (i64, i64), goal: (i64, i64), size: u32,
) -> Option<PathCacheKey> {
    match (
        map.spec_world_to_tile(start.0 as int, start.1 as int),
        map.spec_world_to_tile(goal.0 as int, goal.1 as int),
    ) {
        (Some(st), Some(gt)) => Some(spec_path_key(
            (st.0 as i32, st.1 as i32), (gt.0 as i32, gt.1 as i32), size as int)),
        _ => None,
    }
}

/// Whether a tick serves these request fields from the cache: both
/// endpoints on the grid and a current-version answer under their key.
pub open spec fn spec_tick_hit(
    c: &PathfindingCache, map: &TerrainMap, start: (i64, i64), goal: (i64, i64), size: u32,
) -> bool {
    match spec_tick_key(map, start, goal, size) {
        Some(k) => spec_current_hit(c, k),
        None => false,
    }
}

/// The stored answer such a hit serves (the waypoints, or `None` for a
/// cached "no path" answer).
pub open spec fn spec_tick_hit_payload(
    c: &PathfindingCache, map: &TerrainMap, start: (i64, i64), goal: (i64, i64), size: u32,
) -> Option<Seq<(i64, i64)>> {
    match spec_tick_key(map, start, goal, size) {
        Some(k) => match c.spec_path_lookup(k) {
            Some(e) => path_view(e.path),
            None => None,
        },
        None => None,
    }
}

/// Stored current-version path answers survive from `c0` to `c1`: the
/// version, which keys hit, and the payload each hit serves are unchanged;
/// only access stamps and counters may move.
pub open spec fn spec_payloads_preserved(c0: &PathfindingCache, c1: &PathfindingCache) -> bool {
    &&& c1.terrain_version == c0.terrain_version
    &&& forall|k: PathCacheKey| #[trigger] spec_current_hit(c1, k) == spec_current_hit(c0, k)
    &&& forall|k: PathCacheKey| #[trigger] spec_current_hit(c0, k)
        ==> path_view(c1.spec_path_lookup(k).unwrap().path)
            == path_view(c0.spec_path_lookup(k).unwrap().path)
}

/// The tick's outcome owed to one request, judged against the cache as the
/// tick found it: a hit resolves the request with the stored answer; a
/// miss (or an off-grid endpoint) dispatches it.
pub open spec fn spec_request_outcome(
    req: PathfindingRequest, c0: &PathfindingCache, map: &TerrainMap,
    tasks: Seq<PathfindingTask>, results: Seq<PathfindingResult>, from: int,
) -> bool {
    if spec_tick_hit(c0, map, req.start, req.goal, req.size) {
        exists|j: int| from <= j < results.len()
            && spec_result_of(&(#[trigger] results[j]), req)
            && path_view(results[j].path)
                == spec_tick_hit_payload(c0, map, req.start, req.goal, req.size)
    } else {
        exists|j: int| 0 <= j < tasks.len() && spec_task_of(#[trigger] tasks[j], req)
    }
}

/// The two tasks stem from requests of non-increasing priority.
pub open spec fn spec_ordered_pair(
    t1: PathfindingTask, t2: PathfindingTask, pend: Seq<PathfindingRequest>,
) -> bool {
    exists|a1: int, a2: int| 0 <= a1 < pend.len() && 0 <= a2 < pend.len()
        && spec_task_of(t1, #[trigger] pend[a1])
        && spec_task_of(t2, #[trigger] pend[a2])
        && spec_rank(pend[a1].priority) >= spec_rank(pend[a2].priority)
}

/// The task list is in descending priority of the requests it copies.
pub open spec fn spec_tasks_priority_ordered(
    tasks: Seq<PathfindingTask>, pend: Seq<PathfindingRequest>,
) -> bool {
    forall|j1: int, j2: int| 0 <= j1 < j2 < tasks.len()
        ==> spec_ordered_pair(#[trigger] tasks[j1], #[trigger] tasks[j2], pend)
}

/// One cache lookup leaves stored current-version answers as they were:
/// a hit only refreshes the entry's access stamp, a stale eviction only
/// removes a non-current entry, and a miss changes nothing.
proof fn lemma_tick_get_path_preserves(
    c0: &PathfindingCache, c1: &PathfindingCache, k: PathCacheKey,
)
    requires
        c1.terrain_version == c0.terrain_version,
        forall|k2: PathCacheKey| k2 != k
            ==> #[trigger] c1.spec_path_lookup(k2) == c0.spec_path_lookup(k2),
        match c0.spec_path_lookup(k) {
            Some(e) => {
                if e.terrain_version == c0.terrain_version {
                    c1.spec_path_lookup(k) matches Some(e2)
                        && e2.path == e.path && e2.terrain_version == e.terrain_version
                } else {
                    c1.spec_path_lookup(k) is None
                }
            },
            None => c1.spec_path_lookup(k) is None,
        },
    ensures
        spec_payloads_preserved(c0, c1),
{
    assert forall|k2: PathCacheKey|
        #[trigger] spec_current_hit(c1, k2) == spec_current_hit(c0, k2)
    by {
        if k2 != k {
            assert(c1.spec_path_lookup(k2) == c0.spec_path_lookup(k2));
        }
    }
    assert forall|k2: PathCacheKey| #[trigger] spec_current_hit(c0, k2)
        implies path_view(c1.spec_path_lookup(k2).unwrap().path)
            == path_view(c0.spec_path_lookup(k2).unwrap().path)
    by {
        if k2 != k {
            assert(c1.spec_path_lookup(k2) == c0.spec_path_lookup(k2));
        }
    }
}

/// Payload survival composes.
proof fn lemma_payloads_preserved_trans(
    c0: &PathfindingCache, c1: &PathfindingCache, c2: &PathfindingCache,
)
    requires
        spec_payloads_preserved(c0, c1),
        spec_payloads_preserved(c1, c2),
    ensures
        spec_payloads_preserved(c0, c2),
{
    assert forall|k: PathCacheKey| #[trigger] spec_current_hit(c0, k)
        implies path_view(c2.spec_path_lookup(k).unwrap().path)
            == path_view(c0.spec_path_lookup(k).unwrap().path)
    by {
        assert(spec_current_hit(c1, k));
    }
}

/// The request was either dispatched as one of `tasks` or resolved into
/// one of the `results` from position `from` on.
pub open spec fn spec_handled(
    req: PathfindingRequest, tasks: Seq<PathfindingTask>,
    results: Seq<PathfindingResult>, from: int,
) -> bool {
    ||| exists|j: int| 0 <= j < tasks.len() && spec_task_of(#[trigger] tasks[j], req)
    ||| exists|j: int| from <= j < results.len() && spec_result_of(&(#[trigger] results[j]), req)
}

/// The scheduler: pending requests, in-flight tasks, resolved results, the
/// shared cache, and the pending terrain change-set.
pub struct RequestScheduler {
    pub counter: PathfindingRequestCounter,
    pub pending: Vec<PathfindingRequest>,
    pub in_flight: Vec<PathfindingTask>,
    pub resolved: Vec<PathfindingResult>,
    pub cache: PathfindingCache,
    pub changes: TerrainChanges,
}

impl RequestScheduler {
    pub open spec fn wf(&self) -> bool {
        &&& self.cache.wf()
        &&& forall|i: int| 0 <= i < self.pending@.len()
            ==> (#[trigger] self.pending@[i]).size <= MAX_AGENT_SIZE
    }

    /// A fresh scheduler with an empty cache and no requests.
    pub fn new() -> (r: RequestScheduler)
        ensures
            r.wf(),
            r.counter.next_id == 0,
            r.pending@.len() == 0,
            r.in_flight@.len() == 0,
            r.resolved@.len() == 0,
            r.changes.changed_tiles@.len() == 0,
            r.cache.terrain_version == 1,
    {
        RequestScheduler {
            counter: PathfindingRequestCounter::default(),
            pending: Vec::new(),
            in_flight: Vec::new(),
            resolved: Vec::new(),
            cache: PathfindingCache::new(),
            changes: TerrainChanges::default(),
        }
    }

    /// Files a request and returns its id. The request sits in `Requested`
    /// state until the next tick.
    pub fn submit(
        &mut self, start: (i64, i64), goal: (i64, i64), size: u32, priority: PathfindingPriority,
    ) -> (r: u64)
        requires
            old(self).wf(),
            size <= MAX_AGENT_SIZE,
        ensures
            final(self).wf(),
            r == old(self).counter.next_id,
            final(self).pending@ =~= old(self).pending@.push(PathfindingRequest {
                start, goal, size, priority, request_id: r,
            }),
            final(self).in_flight == old(self).in_flight,
            final(self).resolved == old(self).resolved,
            final(self).cache == old(self).cache,
            final(self).changes == old(self).changes,
    {
        let id = self.counter.next_id();
        self.pending.push(PathfindingRequest {
            start, goal, size, priority, request_id: id,
        });
        id
    }

    /// Records one terrain edit in the pending change-set; the cache
    /// consumes it on the next `apply_terrain_changes`.
    pub fn notify_terrain_changed(&mut self, x: u32, y: u32, new_class: usize)
        requires
            old(self).wf(),
        ensures
            final(self).wf(),
            final(self).changes.changed_tiles@
                =~= old(self).changes.changed_tiles@.push((x, y, new_class)),
            final(self).cache == old(self).cache,
            final(self).pending == old(self).pending,
            final(self).in_flight == old(self).in_flight,
            final(self).resolved == old(self).resolved,
            final(self).counter == old(self).counter,
    {
        self.changes.add_change(x, y, new_class);
    }

    /// Consumes the pending change-set: invalidates the cache against it
    /// and clears it.
    pub fn apply_terrain_changes(&mut self)
        requires
            old(self).wf(),
            old(self).cache.terrain_version < u64::MAX,
        ensures
            final(self).wf(),
            final(self).changes.changed_tiles@.len() == 0,
            old(self).changes.changed_tiles@.len() > 0 ==> {
                &&& final(self).cache.terrain_version == old(self).cache.terrain_version + 1
                &&& forall|k: crate::cache::PassabilityCacheKey|
                    #[trigger] final(self).cache.spec_pass_lookup(k)
                        == (if spec_near_change(k, old(self).changes.changed_tiles@) { None }
                            else { old(self).cache.spec_pass_lookup(k) })
                &&& forall|k: crate::cache::PathCacheKey|
                    #[trigger] final(self).cache.spec_path_lookup(k)
                        == (match old(self).cache.spec_path_lookup(k) {
                            Some(e) => if spec_touches_change(
                                e, old(self).changes.changed_tiles@) {
                                None
                            } else {
                                Some(e)
                            },
                            None => None,
                        })
            },
            old(self).changes.changed_tiles@.len() == 0
                ==> final(self).cache == old(self).cache,
            final(self).pending == old(self).pending,
            final(self).in_flight == old(self).in_flight,
            final(self).resolved == old(self).resolved,
            final(self).counter == old(self).counter,
    {
        let mut copied: Vec<(u32, u32, usize)> = Vec::new();
        let mut i: usize = 0;
        while i < self.changes.changed_tiles.len()
            invariant
                old(self).wf(),
                old(self).cache.terrain_version < u64::MAX,
                *self == *old(self),
                0 <= i <= self.changes.changed_tiles@.len(),
                copied@ =~= self.changes.changed_tiles@.take(i as int),
            decreases self.changes.changed_tiles@.len() - i,
        {
            copied.push(self.changes.changed_tiles[i]);
            i = i + 1;
        }
        proof {
            assert(copied@ =~= self.changes.changed_tiles@);
        }
        self.changes.clear();
        let batch = TerrainChanges { changed_tiles: copied };
        self.cache.invalidate_from_terrain_changes(&batch);
    }

    /// One scheduling pass: takes every pending request in descending
    /// priority order; a request whose key hits the cache at the current
    /// terrain version resolves immediately with the stored answer (all
    /// hits resolve before any dispatch runs), and every other request
    /// becomes an in-flight task. The returned tasks, in dispatch (and so
    /// priority) order, are for the driver to execute (see `run_task`) and
    /// hand back through `complete`. Stored answers survive the pass: only
    /// access stamps and hit/miss counters move.
    #[verifier::rlimit(100)]
    #[verifier::spinoff_prover]
    pub fn tick(&mut self, map: &TerrainMap) -> (r: Vec<PathfindingTask>)
        requires
            old(self).wf(),
            map.wf(),
        ensures
            final(self).wf(),
            final(self).pending@.len() == 0,
            final(self).in_flight@ =~= old(self).in_flight@ + r@,
            final(self).resolved@.len()
                == old(self).resolved@.len() + old(self).pending@.len() - r@.len(),
            forall|j: int| 0 <= j < r@.len()
                ==> spec_task_from(#[trigger] r@[j], old(self).pending@),
            forall|j: int| 0 <= j < r@.len()
                ==> !spec_tick_hit(&old(self).cache, map,
                    (#[trigger] r@[j]).start, r@[j].goal, r@[j].size),
            spec_tasks_priority_ordered(r@, old(self).pending@),
            forall|j: int| old(self).resolved@.len() <= j < final(self).resolved@.len()
                ==> spec_result_from(#[trigger] final(self).resolved@[j], old(self).pending@),
            forall|j: int| old(self).resolved@.len() <= j < final(self).resolved@.len()
                ==> spec_tick_hit(&old(self).cache, map,
                        (#[trigger] final(self).resolved@[j]).start,
                        final(self).resolved@[j].goal, final(self).resolved@[j].size)
                    && path_view(final(self).resolved@[j].path)
                        == spec_tick_hit_payload(&old(self).cache, map,
                            final(self).resolved@[j].start,
                            final(self).resolved@[j].goal, final(self).resolved@[j].size),
            forall|j: int| 0 <= j < old(self).resolved@.len()
                ==> final(self).resolved@[j] == old(self).resolved@[j],
            forall|a: int| 0 <= a < old(self).pending@.len()
                ==> spec_request_outcome(#[trigger] old(self).pending@[a],
                    &old(self).cache, map, r@, final(self).resolved@,
                    old(self).resolved@.len() as int),
            spec_payloads_preserved(&old(self).cache, &final(self).cache),
            final(self).counter == old(self).counter,
            final(self).changes == old(self).changes,
            final(self).cache.terrain_version == old(self).cache.terrain_version,
    {
        let sorted = sort_requests_by_priority(&self.pending);
        proof {
            assert forall|a: int| 0 <= a < sorted@.len()
                implies (#[trigger] sorted@[a]).size <= MAX_AGENT_SIZE
            by {
                assert(sorted@.contains(sorted@[a]));
                assert(old(self).pending@.contains(sorted@[a]));
                let b = choose|b: int| 0 <= b < old(self).pending@.len()
                    && old(self).pending@[b] == sorted@[a];
            }
        }
        self.pending = Vec::new();
        let mut out: Vec<PathfindingTask> = Vec::new();
        let ghost g0 = *self;
        let ghost old_pending = sorted@;
        let ghost oc = old(self).cache;
        let ghost mut oidx: Seq<int> = Seq::empty();
        let mut i: usize = 0;
        while i < sorted.len()
            invariant
                map.wf(),
                self.cache.wf(),
                self.pending@.len() == 0,
                0 <= i <= sorted@.len(),
                sorted@ == old_pending,
                oc == old(self).cache,
                spec_sorted_by_priority_desc(old_pending),
                forall|a: int| 0 <= a < old_pending.len()
                    ==> (#[trigger] old_pending[a]).size <= MAX_AGENT_SIZE,
                self.in_flight@ =~= g0.in_flight@ + out@,
                self.resolved@.len() == g0.resolved@.len() + i - out@.len(),
                out@.len() <= i,
                forall|j: int| 0 <= j < out@.len()
                    ==> spec_task_from(#[trigger] out@[j], old_pending),
                forall|j: int| 0 <= j < out@.len()
                    ==> !spec_tick_hit(&oc, map,
                        (#[trigger] out@[j]).start, out@[j].goal, out@[j].size),
                oidx.len() == out@.len(),
                forall|j: int| 0 <= j < oidx.len()
                    ==> 0 <= #[trigger] oidx[j] < i
                        && spec_task_of(out@[j], old_pending[oidx[j]]),
                forall|j1: int, j2: int| 0 <= j1 < j2 < oidx.len()
                    ==> #[trigger] oidx[j1] < #[trigger] oidx[j2],
                forall|j: int| g0.resolved@.len() <= j < self.resolved@.len()
                    ==> spec_result_from(#[trigger] self.resolved@[j], old_pending),
                forall|j: int| g0.resolved@.len() <= j < self.resolved@.len()
                    ==> spec_tick_hit(&oc, map,
                            (#[trigger] self.resolved@[j]).start,
                            self.resolved@[j].goal, self.resolved@[j].size)
                        && path_view(self.resolved@[j].path)
                            == spec_tick_hit_payload(&oc, map, self.resolved@[j].start,
                                self.resolved@[j].goal, self.resolved@[j].size),
                forall|j: int| 0 <= j < g0.resolved@.len()
                    ==> self.resolved@[j] == g0.resolved@[j],
                forall|a: int| 0 <= a < i
                    ==> spec_handled(#[trigger] old_pending[a], out@,
                        self.resolved@, g0.resolved@.len() as int),
                forall|a: int| 0 <= a < i
                    ==> spec_request_outcome(#[trigger] old_pending[a], &oc, map,
                        out@, self.resolved@, g0.resolved@.len() as int),
                spec_payloads_preserved(&oc, &self.cache),
                self.counter == g0.counter,
                self.changes == g0.changes,
                self.cache.terrain_version == g0.cache.terrain_version,
            decreases sorted@.len() - i,
        {
            let req = sorted[i];
            let ghost out_pre = out@;
            let ghost res_pre = self.resolved@;
            let ghost cache_pre = self.cache;
            proof {
                assert(old_pending[i as int] == req);
            }
            let tiles = (
                map.world_to_tile_coords(req.start.0, req.start.1),
                map.world_to_tile_coords(req.goal.0, req.goal.1),
            );
            let mut dispatched: bool = true;
            match tiles {
                (Some(st), Some(gt)) => {
                    proof {
                        assert(spec_tick_key(map, req.start, req.goal, req.size)
                            == Some(spec_path_key(st, gt, req.size as int)));
                    }
                    let ghost k = spec_path_key(st, gt, req.size as int);
                    match self.cache.get_path(st, gt, req.size) {
                        Some(hit) => {
                            proof {
                                assert(spec_current_hit(&cache_pre, k));
                                assert(spec_current_hit(&oc, k));
                                assert(spec_tick_hit(&oc, map, req.start, req.goal, req.size));
                                assert(path_view(hit)
                                    == path_view(cache_pre.spec_path_lookup(k).unwrap().path));
                                assert(path_view(hit) == spec_tick_hit_payload(
                                    &oc, map, req.start, req.goal, req.size));
                                lemma_tick_get_path_preserves(&cache_pre, &self.cache, k);
                                lemma_payloads_preserved_trans(&oc, &cache_pre, &self.cache);
                            }
                            self.resolved.push(PathfindingResult {
                                path: hit,
                                start: req.start,
                                goal: req.goal,
                                size: req.size,
                                request_id: req.request_id,
                            });
                            dispatched = false;
                        },
                        None => {
                            proof {
                                assert(!spec_current_hit(&cache_pre, k));
                                assert(!spec_tick_hit(&oc, map, req.start, req.goal, req.size));
                                lemma_tick_get_path_preserves(&cache_pre, &self.cache, k);
                                lemma_payloads_preserved_trans(&oc, &cache_pre, &self.cache);
                            }
                        },
                    }
                },
                _ => {
                    proof {
                        assert(spec_tick_key(map, req.start, req.goal, req.size) is None);
                        assert(!spec_tick_hit(&oc, map, req.start, req.goal, req.size));
                    }
                },
            }
            if dispatched {
                let task = PathfindingTask {
                    start: req.start,
                    goal: req.goal,
                    size: req.size,
                    request_id: req.request_id,
                };
                self.in_flight.push(task);
                out.push(task);
                proof {
                    oidx = oidx.push(i as int);
                    assert(spec_task_of(out@.last(), old_pending[i as int]));
                    assert(spec_task_from(out@.last(), old_pending));
                    assert(spec_handled(old_pending[i as int], out@,
                        self.resolved@, g0.resolved@.len() as int)) by {
                        assert(spec_task_of(out@[out@.len() - 1], old_pending[i as int]));
                    }
                    assert(spec_request_outcome(old_pending[i as int], &oc, map,
                        out@, self.resolved@, g0.resolved@.len() as int)) by {
                        assert(spec_task_of(out@[out@.len() - 1], old_pending[i as int]));
                    }
                }
            } else {
                proof {
                    assert(spec_result_of(&self.resolved@.last(), old_pending[i as int]));
                    assert(spec_result_from(self.resolved@.last(), old_pending));
                    assert(spec_handled(old_pending[i as int], out@,
                        self.resolved@, g0.resolved@.len() as int)) by {
                        assert(spec_result_of(&self.resolved@[self.resolved@.len() - 1],
                            old_pending[i as int]));
                    }
                    assert(spec_request_outcome(old_pending[i as int], &oc, map,
                        out@, self.resolved@, g0.resolved@.len() as int)) by {
                        assert(spec_result_of(&self.resolved@[self.resolved@.len() - 1],
                            old_pending[i as int]));
                    }
                }
            }
            proof {
                assert forall|a: int| 0 <= a < i + 1
                    implies spec_handled(#[trigger] old_pending[a], out@,
                        self.resolved@, g0.resolved@.len() as int)
                by {
                    if a < i as int {
                        assert(spec_handled(old_pending[a], out_pre, res_pre,
                            g0.resolved@.len() as int));
                        if exists|j: int| 0 <= j < out_pre.len()
                            && spec_task_of(#[trigger] out_pre[j], old_pending[a]) {
                            let j = choose|j: int| 0 <= j < out_pre.len()
                                && spec_task_of(#[trigger] out_pre[j], old_pending[a]);
                            assert(out@[j] == out_pre[j]);
                        } else {
                            let j = choose|j: int| g0.resolved@.len() <= j < res_pre.len()
                                && spec_result_of(&(#[trigger] res_pre[j]), old_pending[a]);
                            assert(self.resolved@[j] == res_pre[j]);
                        }
                    }
                }
                assert forall|a: int| 0 <= a < i + 1
                    implies spec_request_outcome(#[trigger] old_pending[a], &oc, map,
                        out@, self.resolved@, g0.resolved@.len() as int)
                by {
                    if a < i as int {
                        assert(spec_request_outcome(old_pending[a], &oc, map,
                            out_pre, res_pre, g0.resolved@.len() as int));
                        let ra = old_pending[a];
                        if spec_tick_hit(&oc, map, ra.start, ra.goal, ra.size) {
                            let j = choose|j: int| g0.resolved@.len() <= j < res_pre.len()
                                && spec_result_of(&(#[trigger] res_pre[j]), ra)
                                && path_view(res_pre[j].path)
                                    == spec_tick_hit_payload(&oc, map,
                                        ra.start, ra.goal, ra.size);
                            assert(self.resolved@[j] == res_pre[j]);
                        } else {
                            let j = choose|j: int| 0 <= j < out_pre.len()
                                && spec_task_of(#[trigger] out_pre[j], ra);
                            assert(out@[j] == out_pre[j]);
                        }
                    }
                }
            }
            i = i + 1;
        }
        proof {
            assert(old(self).pending@.to_multiset() == old_pending.to_multiset());
            vstd::seq_lib::to_multiset_len(old_pending);
            vstd::seq_lib::to_multiset_len(old(self).pending@);
            assert forall|j: int| 0 <= j < out@.len()
                implies spec_task_from(#[trigger] out@[j], old(self).pending@)
            by {
                let a0 = choose|a0: int| 0 <= a0 < old_pending.len()
                    && spec_task_of(out@[j], #[trigger] old_pending[a0]);
                assert(old_pending.contains(old_pending[a0]));
                assert(old(self).pending@.contains(old_pending[a0]));
                let a1 = choose|a1: int| 0 <= a1 < old(self).pending@.len()
                    && old(self).pending@[a1] == old_pending[a0];
                assert(spec_task_of(out@[j], old(self).pending@[a1]));
            }
            assert forall|a: int| 0 <= a < old(self).pending@.len()
                implies spec_handled(#[trigger] old(self).pending@[a], out@,
                    self.resolved@, old(self).resolved@.len() as int)
            by {
                assert(old(self).pending@.contains(old(self).pending@[a]));
                assert(old_pending.contains(old(self).pending@[a]));
                let a0 = choose|a0: int| 0 <= a0 < old_pending.len()
                    && old_pending[a0] == old(self).pending@[a];
                assert(spec_handled(old_pending[a0], out@,
                    self.resolved@, g0.resolved@.len() as int));
            }
            assert forall|a: int| 0 <= a < old(self).pending@.len()
                implies spec_request_outcome(#[trigger] old(self).pending@[a], &oc, map,
                    out@, self.resolved@, old(self).resolved@.len() as int)
            by {
                assert(old(self).pending@.contains(old(self).pending@[a]));
                assert(old_pending.contains(old(self).pending@[a]));
                let a0 = choose|a0: int| 0 <= a0 < old_pending.len()
                    && old_pending[a0] == old(self).pending@[a];
                assert(spec_request_outcome(old_pending[a0], &oc, map,
                    out@, self.resolved@, g0.resolved@.len() as int));
            }
            assert forall|j: int| g0.resolved@.len() <= j < self.resolved@.len()
                implies spec_result_from(#[trigger] self.resolved@[j], old(self).pending@)
            by {
                let a0 = choose|a0: int| 0 <= a0 < old_pending.len()
                    && spec_result_of(&self.resolved@[j], #[trigger] old_pending[a0]);
                assert(old_pending.contains(old_pending[a0]));
                assert(old(self).pending@.contains(old_pending[a0]));
                let a1 = choose|a1: int| 0 <= a1 < old(self).pending@.len()
                    && old(self).pending@[a1] == old_pending[a0];
                assert(spec_result_of(&self.resolved@[j], old(self).pending@[a1]));
            }
            assert forall|j1: int, j2: int| 0 <= j1 < j2 < out@.len()
                implies spec_ordered_pair(#[trigger] out@[j1], #[trigger] out@[j2],
                    old(self).pending@)
            by {
                let b1 = oidx[j1];
                let b2 = oidx[j2];
                assert(b1 < b2);
                assert(spec_rank(old_pending[b1].priority)
                    >= spec_rank(old_pending[b2].priority));
                assert(old_pending.contains(old_pending[b1]));
                assert(old(self).pending@.contains(old_pending[b1]));
                let a1 = choose|a1: int| 0 <= a1 < old(self).pending@.len()
                    && old(self).pending@[a1] == old_pending[b1];
                assert(old_pending.contains(old_pending[b2]));
                assert(old(self).pending@.contains(old_pending[b2]));
                let a2 = choose|a2: int| 0 <= a2 < old(self).pending@.len()
                    && old(self).pending@[a2] == old_pending[b2];
                assert(spec_task_of(out@[j1], old(self).pending@[a1])
                    && spec_task_of(out@[j2], old(self).pending@[a2])
                    && spec_rank(old(self).pending@[a1].priority)
                        >= spec_rank(old(self).pending@[a2].priority));
            }
        }
        out
    }

    /// Runs one dispatched task to completion against a snapshot of the
    /// grid: the clearance-aware search itself. Pure; the driver may call
    /// it from any thread.
    pub fn run_task(map: &TerrainMap, cfg: &GroundConfigs, task: &PathfindingTask)
        -> (r: PathfindingResult)
        requires
            map.wf(),
            task.size <= MAX_AGENT_SIZE,
        ensures
            r.start == task.start && r.goal == task.goal && r.size == task.size
                && r.request_id == task.request_id,
            match (
                map.spec_world_to_tile(task.start.0 as int, task.start.1 as int),
                map.spec_world_to_tile(task.goal.0 as int, task.goal.1 as int),
            ) {
                (Some(st), Some(gt)) => {
                    if !map.spec_passable_for_size(
                        cfg, task.start.0 as int, task.start.1 as int, task.size as int)
                        || !map.spec_passable_for_size(
                            cfg, task.goal.0 as int, task.goal.1 as int, task.size as int) {
                        r.path is None
                    } else {
                        &&& (r.path matches Some(wp) ==> exists|q: Seq<(int, int)>|
                            #[trigger] spec_min_cost_path(
                                map, cfg, SearchMode::Clearance(task.size), q, st, gt)
                                && spec_waypoints_of(map, q, wp@))
                        &&& (r.path is None ==> !exists|q: Seq<(int, int)>|
                            spec_is_path(map, cfg, SearchMode::Clearance(task.size), q, st, gt))
                    }
                },
                _ => r.path is None,
            },
    {
        let path = map.find_path_for_size(task.start, task.goal, task.size, cfg);
        PathfindingResult {
            path,
            start: task.start,
            goal: task.goal,
            size: task.size,
            request_id: task.request_id,
        }
    }

    /// Takes a completed task's result back: stores it in the cache under
    /// the request's key at the current terrain version, retires the
    /// in-flight task with the same id, and makes the result pollable.
    pub fn complete(&mut self, result: PathfindingResult, map: &TerrainMap)
        requires
            old(self).wf(),
            map.wf(),
            result.size <= MAX_AGENT_SIZE,
        ensures
            final(self).wf(),
            final(self).resolved@.len() == old(self).resolved@.len() + 1,
            forall|j: int| 0 <= j < old(self).resolved@.len()
                ==> final(self).resolved@[j] == old(self).resolved@[j],
            final(self).resolved@.last().request_id == result.request_id,
            final(self).resolved@.last().start == result.start,
            final(self).resolved@.last().goal == result.goal,
            final(self).resolved@.last().size == result.size,
            path_view(final(self).resolved@.last().path) == path_view(result.path),
            (exists|j: int| 0 <= j < old(self).in_flight@.len()
                && (#[trigger] old(self).in_flight@[j]).request_id == result.request_id)
                ==> exists|ix: int| {
                    &&& 0 <= ix < old(self).in_flight@.len()
                    &&& (#[trigger] old(self).in_flight@[ix]).request_id == result.request_id
                    &&& forall|j: int| 0 <= j < ix
                        ==> (#[trigger] old(self).in_flight@[j]).request_id
                            != result.request_id
                    &&& final(self).in_flight@ == old(self).in_flight@.remove(ix)
                },
            (forall|j: int| 0 <= j < old(self).in_flight@.len()
                ==> (#[trigger] old(self).in_flight@[j]).request_id != result.request_id)
                ==> final(self).in_flight == old(self).in_flight,
            match (
                map.spec_world_to_tile(result.start.0 as int, result.start.1 as int),
                map.spec_world_to_tile(result.goal.0 as int, result.goal.1 as int),
            ) {
                (Some(st), Some(gt)) => {
                    let k = spec_path_key(
                        (st.0 as i32, st.1 as i32), (gt.0 as i32, gt.1 as i32),
                        result.size as int);
                    match final(self).cache.spec_path_lookup(k) {
                        Some(e) => {
                            &&& path_view(e.path) == path_view(result.path)
                            &&& e.terrain_version == old(self).cache.terrain_version
                            &&& match result.path {
                                Some(v) => forall|c: (u32, u32)| e.affected_tiles@.contains(c)
                                    == spec_in_footprint(map, v@, result.size as int, c),
                                None => e.affected_tiles@.len() == 0,
                            }
                        },
                        None => false,
                    }
                },
                _ => final(self).cache == old(self).cache,
            },
            final(self).cache.terrain_version == old(self).cache.terrain_version,
            final(self).pending == old(self).pending,
            final(self).counter == old(self).counter,
            final(self).changes == old(self).changes,
    {
        let tiles = (
            map.world_to_tile_coords(result.start.0, result.start.1),
            map.world_to_tile_coords(result.goal.0, result.goal.1),
        );
        match tiles {
            (Some(st), Some(gt)) => {
                let copy = crate::cache::clone_path(&result.path);
                self.cache.cache_path(st, gt, result.size, copy, map);
            },
            _ => {},
        }
        let ghost fl0 = self.in_flight@;
        let mut found: Option<usize> = None;
        let mut j: usize = 0;
        while j < self.in_flight.len() && found.is_none()
            invariant
                0 <= j <= self.in_flight@.len(),
                self.in_flight@ == fl0,
                forall|j2: int| 0 <= j2 < j
                    ==> (#[trigger] fl0[j2]).request_id != result.request_id,
                found matches Some(ix) ==> 0 <= ix < self.in_flight@.len()
                    && fl0[ix as int].request_id == result.request_id
                    && (forall|j2: int| 0 <= j2 < ix
                        ==> (#[trigger] fl0[j2]).request_id != result.request_id),
            decreases self.in_flight@.len() - j + (if found is None { 1int } else { 0int }),
        {
            if self.in_flight[j].request_id == result.request_id {
                found = Some(j);
            } else {
                j = j + 1;
            }
        }
        match found {
            Some(ix) => {
                self.in_flight.remove(ix);
                proof {
                    assert(self.in_flight@ == fl0.remove(ix as int));
                }
            },
            None => {},
        }
        self.resolved.push(result);
    }

    /// The pollable result for a request id, if one is ready; polling
    /// consumes it. The first matching result is handed out.
    pub fn poll(&mut self, request_id: u64) -> (r: Option<PathfindingResult>)
        requires
            old(self).wf(),
        ensures
            final(self).wf(),
            match r {
                Some(_) => exists|i: int| {
                    &&& 0 <= i < old(self).resolved@.len()
                    &&& (#[trigger] old(self).resolved@[i]).request_id == request_id
                    &&& forall|j: int| 0 <= j < i
                        ==> (#[trigger] old(self).resolved@[j]).request_id != request_id
                    &&& r == Some(old(self).resolved@[i])
                    &&& final(self).resolved@ == old(self).resolved@.remove(i)
                },
                None => {
                    &&& forall|i: int| 0 <= i < old(self).resolved@.len()
                        ==> (#[trigger] old(self).resolved@[i]).request_id != request_id
                    &&& final(self).resolved == old(self).resolved
                },
            },
            r matches Some(res) ==> res.request_id == request_id,
            final(self).pending == old(self).pending,
            final(self).in_flight == old(self).in_flight,
            final(self).cache == old(self).cache,
            final(self).counter == old(self).counter,
            final(self).changes == old(self).changes,
    {
        let mut i: usize = 0;
        while i < self.resolved.len()
            invariant
                old(self).wf(),
                *self == *old(self),
                0 <= i <= self.resolved@.len(),
                forall|j: int| 0 <= j < i
                    ==> (#[trigger] self.resolved@[j]).request_id != request_id,
            decreases self.resolved@.len() - i,
        {
            if self.resolved[i].request_id == request_id {
                let ghost res_pre = self.resolved@;
                let ghost i0 = i as int;
                let res = self.resolved.remove(i);
                proof {
                    assert(res_pre[i0].request_id == request_id
                        && (forall|j: int| 0 <= j < i0
                            ==> (#[trigger] res_pre[j]).request_id != request_id)
                        && res == res_pre[i0]
                        && self.resolved@ == res_pre.remove(i0));
                }
                return Some(res);
            }
            i = i + 1;
        }
        None
    }

    /// Orphan cleanup: forgets every pending request, in-flight task and
    /// unpolled result belonging to the id (a caller that no longer
    /// exists). A task's computation may still finish; its late result is
    /// simply discarded by `complete` never being called for it.
    #[verifier::rlimit(80)]
    pub fn discard(&mut self, request_id: u64)
        requires
            old(self).wf(),
        ensures
            final(self).wf(),
            forall|i: int| 0 <= i < final(self).pending@.len()
                ==> (#[trigger] final(self).pending@[i]).request_id != request_id
                    && old(self).pending@.contains(final(self).pending@[i]),
            forall|i: int| 0 <= i < final(self).in_flight@.len()
                ==> (#[trigger] final(self).in_flight@[i]).request_id != request_id
                    && old(self).in_flight@.contains(final(self).in_flight@[i]),
            forall|i: int| 0 <= i < final(self).resolved@.len()
                ==> (#[trigger] final(self).resolved@[i]).request_id != request_id,
            forall|i: int| 0 <= i < old(self).pending@.len()
                && (#[trigger] old(self).pending@[i]).request_id != request_id
                ==> final(self).pending@.contains(old(self).pending@[i]),
            forall|i: int| 0 <= i < old(self).in_flight@.len()
                && (#[trigger] old(self).in_flight@[i]).request_id != request_id
                ==> final(self).in_flight@.contains(old(self).in_flight@[i]),
            forall|i: int| 0 <= i < old(self).resolved@.len()
                && (#[trigger] old(self).resolved@[i]).request_id != request_id
                ==> exists|j: int| 0 <= j < final(self).resolved@.len()
                    && (#[trigger] final(self).resolved@[j]) == old(self).resolved@[i],
            final(self).cache == old(self).cache,
            final(self).counter == old(self).counter,
            final(self).changes == old(self).changes,
    {
        let mut np: Vec<PathfindingRequest> = Vec::new();
        let mut i: usize = 0;
        while i < self.pending.len()
            invariant
                old(self).wf(),
                self.pending == old(self).pending,
                0 <= i <= self.pending@.len(),
                forall|j: int| 0 <= j < np@.len()
                    ==> (#[trigger] np@[j]).request_id != request_id
                        && self.pending@.contains(np@[j]),
                forall|j: int| 0 <= j < i
                    && (#[trigger] self.pending@[j]).request_id != request_id
                    ==> np@.contains(self.pending@[j]),
            decreases self.pending@.len() - i,
        {
            let x = self.pending[i];
            let ghost np_pre = np@;
            if x.request_id != request_id {
                np.push(x);
                proof {
                    assert(self.pending@[i as int] == x);
                    assert(np@.last() == x);
                }
            }
            proof {
                assert forall|j: int| 0 <= j < i + 1
                    && (#[trigger] self.pending@[j]).request_id != request_id
                    implies np@.contains(self.pending@[j])
                by {
                    if j < i as int {
                        assert(np_pre.contains(self.pending@[j]));
                        let j2 = choose|j2: int| 0 <= j2 < np_pre.len()
                            && np_pre[j2] == self.pending@[j];
                        assert(np@[j2] == self.pending@[j]);
                    } else {
                        assert(np@.contains(x));
                    }
                }
            }
            i = i + 1;
        }
        self.pending = np;
        let mut nf: Vec<PathfindingTask> = Vec::new();
        let mut i2: usize = 0;
        while i2 < self.in_flight.len()
            invariant
                self.in_flight == old(self).in_flight,
                0 <= i2 <= self.in_flight@.len(),
                forall|j: int| 0 <= j < nf@.len()
                    ==> (#[trigger] nf@[j]).request_id != request_id
                        && self.in_flight@.contains(nf@[j]),
                forall|j: int| 0 <= j < i2
                    && (#[trigger] self.in_flight@[j]).request_id != request_id
                    ==> nf@.contains(self.in_flight@[j]),
            decreases self.in_flight@.len() - i2,
        {
            let x = self.in_flight[i2];
            let ghost nf_pre = nf@;
            if x.request_id != request_id {
                nf.push(x);
                proof {
                    assert(self.in_flight@[i2 as int] == x);
                    assert(nf@.last() == x);
                }
            }
            proof {
                assert forall|j: int| 0 <= j < i2 + 1
                    && (#[trigger] self.in_flight@[j]).request_id != request_id
                    implies nf@.contains(self.in_flight@[j])
                by {
                    if j < i2 as int {
                        assert(nf_pre.contains(self.in_flight@[j]));
                        let j2 = choose|j2: int| 0 <= j2 < nf_pre.len()
                            && nf_pre[j2] == self.in_flight@[j];
                        assert(nf@[j2] == self.in_flight@[j]);
                    } else {
                        assert(nf@.contains(x));
                    }
                }
            }
            i2 = i2 + 1;
        }
        self.in_flight = nf;
        let ghost gp = self.pending@;
        let ghost gf = self.in_flight@;
        let ghost r0 = self.resolved@;
        let ghost seen: int = 0;
        let mut i3: usize = 0;
        while i3 < self.resolved.len()
            invariant
                self.pending@ == gp,
                self.in_flight@ == gf,
                self.cache == old(self).cache,
                self.counter == old(self).counter,
                self.changes == old(self).changes,
                r0 == old(self).resolved@,
                0 <= i3 <= self.resolved@.len(),
                i3 <= seen <= r0.len(),
                self.resolved@ =~= self.resolved@.take(i3 as int) + r0.skip(seen),
                forall|j: int| 0 <= j < i3
                    ==> (#[trigger] self.resolved@[j]).request_id != request_id,
                forall|j: int| 0 <= j < seen
                    && (#[trigger] r0[j]).request_id != request_id
                    ==> exists|j2: int| 0 <= j2 < i3
                        && (#[trigger] self.resolved@[j2]) == r0[j],
            decreases self.resolved@.len() - i3,
        {
            let ghost res_pre = self.resolved@;
            if self.resolved[i3].request_id == request_id {
                self.resolved.remove(i3);
                proof {
                    assert(res_pre[i3 as int] == r0[seen]);
                    seen = seen + 1;
                    assert(self.resolved@ =~= self.resolved@.take(i3 as int) + r0.skip(seen));
                    assert forall|j: int| 0 <= j < seen
                        && (#[trigger] r0[j]).request_id != request_id
                        implies exists|j2: int| 0 <= j2 < i3
                            && (#[trigger] self.resolved@[j2]) == r0[j]
                    by {
                        assert(j < seen - 1);
                        let j2 = choose|j2: int| 0 <= j2 < i3
                            && (#[trigger] res_pre[j2]) == r0[j];
                        assert(self.resolved@[j2] == res_pre[j2]);
                    }
                }
            } else {
                proof {
                    assert(res_pre[i3 as int] == r0[seen]);
                    seen = seen + 1;
                    assert(self.resolved@ =~= self.resolved@.take(i3 + 1 as int)
                        + r0.skip(seen));
                    assert forall|j: int| 0 <= j < seen
                        && (#[trigger] r0[j]).request_id != request_id
                        implies exists|j2: int| 0 <= j2 < i3 + 1
                            && (#[trigger] self.resolved@[j2]) == r0[j]
                    by {
                        if j < seen - 1 {
                            let j2 = choose|j2: int| 0 <= j2 < i3
                                && (#[trigger] self.resolved@[j2]) == r0[j];
                        } else {
                            assert(self.resolved@[i3 as int] == r0[j]);
                        }
                    }
                }
                i3 = i3 + 1;
            }
        }
        proof {
            assert(seen == r0.len());
            assert(i3 == self.resolved@.len());
            assert(self.resolved@ =~= self.resolved@.take(i3 as int));
        }
        proof {
            assert forall|i: int| 0 <= i < self.pending@.len()
                implies (#[trigger] self.pending@[i]).size <= MAX_AGENT_SIZE
            by {
                assert(old(self).pending@.contains(self.pending@[i]));
                let b = choose|b: int| 0 <= b < old(self).pending@.len()
                    && old(self).pending@[b] == self.pending@[i];
            }
        }
    }

    /// Where the request with this id stands: `Requested`, `Dispatched` or
    /// `Resolved` — with that precedence, should an id (after wrapping)
    /// occur in more than one stage — or `None` for an id the scheduler
    /// holds nowhere.
    pub fn request_state(&self, request_id: u64) -> (r: Option<RequestState>)
        ensures
            (r == Some(RequestState::Requested)) <==> exists|i: int|
                0 <= i < self.pending@.len()
                    && (#[trigger] self.pending@[i]).request_id == request_id,
            (r == Some(RequestState::Dispatched)) <==> {
                &&& !exists|i: int| 0 <= i < self.pending@.len()
                    && (#[trigger] self.pending@[i]).request_id == request_id
                &&& exists|i: int| 0 <= i < self.in_flight@.len()
                    && (#[trigger] self.in_flight@[i]).request_id == request_id
            },
            (r == Some(RequestState::Resolved)) <==> {
                &&& !exists|i: int| 0 <= i < self.pending@.len()
                    && (#[trigger] self.pending@[i]).request_id == request_id
                &&& !exists|i: int| 0 <= i < self.in_flight@.len()
                    && (#[trigger] self.in_flight@[i]).request_id == request_id
                &&& exists|i: int| 0 <= i < self.resolved@.len()
                    && (#[trigger] self.resolved@[i]).request_id == request_id
            },
            (r is None) <==> {
                &&& forall|i: int| 0 <= i < self.pending@.len()
                    ==> (#[trigger] self.pending@[i]).request_id != request_id
                &&& forall|i: int| 0 <= i < self.in_flight@.len()
                    ==> (#[trigger] self.in_flight@[i]).request_id != request_id
                &&& forall|i: int| 0 <= i < self.resolved@.len()
                    ==> (#[trigger] self.resolved@[i]).request_id != request_id
            },
    {
        let mut i: usize = 0;
        while i < self.pending.len()
            invariant
                0 <= i <= self.pending@.len(),
                forall|j: int| 0 <= j < i
                    ==> (#[trigger] self.pending@[j]).request_id != request_id,
            decreases self.pending@.len() - i,
        {
            if self.pending[i].request_id == request_id {
                return Some(RequestState::Requested);
            }
            i = i + 1;
        }
        let mut i2: usize = 0;
        while i2 < self.in_flight.len()
            invariant
                forall|j: int| 0 <= j < self.pending@.len()
                    ==> (#[trigger] self.pending@[j]).request_id != request_id,
                0 <= i2 <= self.in_flight@.len(),
                forall|j: int| 0 <= j < i2
                    ==> (#[trigger] self.in_flight@[j]).request_id != request_id,
            decreases self.in_flight@.len() - i2,
        {
            if self.in_flight[i2].request_id == request_id {
                return Some(RequestState::Dispatched);
            }
            i2 = i2 + 1;
        }
        let mut i3: usize = 0;
        while i3 < self.resolved.len()
            invariant
                forall|j: int| 0 <= j < self.pending@.len()
                    ==> (#[trigger] self.pending@[j]).request_id != request_id,
                forall|j: int| 0 <= j < self.in_flight@.len()
                    ==> (#[trigger] self.in_flight@[j]).request_id != request_id,
                0 <= i3 <= self.resolved@.len(),
                forall|j: int| 0 <= j < i3
                    ==> (#[trigger] self.resolved@[j]).request_id != request_id,
            decreases self.resolved@.len() - i3,
        {
            if self.resolved[i3].request_id == request_id {
                return Some(RequestState::Resolved);
            }
            i3 = i3 + 1;
        }
        None
    }
}


} // verus!
