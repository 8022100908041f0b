//! Memory accounting: allocations per component against a limit, and a
//! pool of reusable image buffers in three size classes.

use vstd::prelude::*;
use vstd::string::StringExecFns;
use crate::error::LunaError;
use crate::kv::{as_map, find_key, has_key, keys_distinct, lemma_as_map_push, lemma_as_map_update};

verus! {

/// Settings of the memory manager.
#[derive(Debug, Clone)]
pub struct MemoryConfig {
    /// The most bytes all components together may hold.
    pub max_total_memory: u64,
    /// Whether the periodic usage check runs.
    pub profiling_enabled: bool,
    /// Seconds between usage checks.
    pub check_interval: u64,
    /// Usage, in percent of the maximum, above which a cleanup runs.
    pub cleanup_threshold_percent: u64,
    /// Usage, in percent of the maximum, above which an emergency cleanup runs.
    pub emergency_threshold_percent: u64,
    /// Whether emergency cleanups run.
    pub emergency_cleanup_enabled: bool,
}

impl MemoryConfig {
    /// The default settings: 4 GB, no periodic check.
    pub fn default_config() -> (c: Self)
        ensures
            c.max_total_memory == 4_000_000_000,
            !c.profiling_enabled,
            c.check_interval == 30,
            c.cleanup_threshold_percent == 80,
            c.emergency_threshold_percent == 95,
            c.emergency_cleanup_enabled,
    {
        MemoryConfig {
            max_total_memory: 4_000_000_000,
            profiling_enabled: false,
            check_interval: 30,
            cleanup_threshold_percent: 80,
            emergency_threshold_percent: 95,
            emergency_cleanup_enabled: true,
        }
    }
}

/// Usage statistics.
#[derive(Debug, Clone)]
pub struct MemoryStats {
    pub total_allocated: u64,
    pub current_usage: u64,
    pub component_breakdown: Vec<(String, u64)>,
    pub pool_usage: PoolStats,
    pub system_available: u64,
    pub gc_runs: u64,
    pub emergency_cleanups: u64,
}

/// Buffer pool statistics.
#[derive(Debug, Clone)]
pub struct PoolStats {
    pub small_buffers: usize,
    pub medium_buffers: usize,
    pub large_buffers: usize,
    pub total_pooled_memory: u64,
}

/// One tracked allocation.
pub struct AllocationInfo {
    pub size: u64,
    pub component: String,
}

/// Reusable image buffers: small (< 1 MB), medium (< 10 MB) and large.
pub struct ImageBufferPool {
    small_buffers: Vec<Vec<u8>>,
    medium_buffers: Vec<Vec<u8>>,
    large_buffers: Vec<Vec<u8>>,
    max_pool_size: usize,
}

/// The number of buffers kept per size class.
pub open spec fn pool_limit() -> usize {
    10
}

/// The sum of the sizes of the allocation records `s`.
pub open spec fn total_size(s: Seq<(usize, u64)>) -> int
    decreases s.len(),
{
    if s.len() == 0 {
        0
    } else {
        total_size(s.drop_last()) + s.last().1
    }
}

/// Removing record `i` takes its size off the total.
pub proof fn lemma_total_size_remove(s: Seq<(usize, u64)>, i: int)
    requires
        0 <= i < s.len(),
    ensures
        total_size(s.remove(i)) == total_size(s) - s[i].1,
        total_size(s) >= s[i].1,
    decreases s.len(),
{
    if i == s.len() - 1 {
        assert(s.remove(i) =~= s.drop_last());
        lemma_total_size_nonneg(s.drop_last());
    } else {
        lemma_total_size_remove(s.drop_last(), i);
        assert(s.remove(i).drop_last() =~= s.drop_last().remove(i));
        assert(s.remove(i).last() == s.last());
    }
}

/// A total of sizes is not negative.
pub proof fn lemma_total_size_nonneg(s: Seq<(usize, u64)>)
    ensures
        total_size(s) >= 0,
    decreases s.len(),
{
    if s.len() > 0 {
        lemma_total_size_nonneg(s.drop_last());
    }
}

/// Allocation accounting against a limit, and the image buffer pool.
pub struct MemoryManager {
    current_usage: u64,
    component_usage: Vec<(String, u64)>,
    allocations: Vec<(usize, AllocationInfo)>,
    image_pool: ImageBufferPool,
    config: MemoryConfig,
    monitoring_active: u64,
    next_id: usize,
}

/// The allocation size of a class: small below 1 MB, medium below 10 MB,
/// large otherwise; 0, 1, 2.
pub open spec fn size_class(size: int) -> int {
    if size < 1_000_000 {
        0
    } else if size < 10_000_000 {
        1
    } else {
        2
    }
}

/// A buffer of `n` zero bytes.
pub open spec fn zeros(n: int) -> Seq<u8> {
    Seq::new(n as nat, |i: int| 0u8)
}

/// The capacity of `v` (`Vec::capacity`): at least its length; the exact
/// value is the allocator's and is not stated.
#[verifier::external_body]
fn capacity_of(v: &Vec<u8>) -> (c: usize)
    ensures
        c >= v.len(),
{
    v.capacity()
}

/// Empties `v` and fills it with `n` zero bytes, keeping its allocation.
fn refill_zeros(v: &mut Vec<u8>, n: usize)
    ensures
        final(v)@ == zeros(n as int),
{
    v.clear();
    let mut i: usize = 0;
    while i < n
        invariant
            i <= n,
            v@ == zeros(i as int),
        decreases n - i,
    {
        v.push(0);
        assert(v@ =~= zeros(i + 1));
        i = i + 1;
    }
}

/// The available system memory where the platform does not report it.
pub fn get_available_memory() -> (bytes: u64)
    ensures
        bytes == 4_000_000_000,
{
    4_000_000_000
}

impl MemoryManager {
    /// The allocation records as `(id, size)`, oldest first.
    pub closed spec fn records(self) -> Seq<(usize, u64)> {
        self.allocations@.map_values(|e: (usize, AllocationInfo)| (e.0, e.1.size))
    }

    /// The component each allocation record belongs to.
    pub closed spec fn record_components(self) -> Seq<Seq<char>> {
        self.allocations@.map_values(|e: (usize, AllocationInfo)| e.1.component@)
    }

    /// Bytes held per component.
    pub closed spec fn components(self) -> Map<Seq<char>, u64> {
        as_map(self.component_entries())
    }

    /// Bytes held per component, in storage order.
    pub closed spec fn component_entries(self) -> Seq<(Seq<char>, u64)> {
        self.component_usage@.map_values(|e: (String, u64)| (e.0@, e.1))
    }

    /// Bytes currently held.
    pub closed spec fn usage(self) -> u64 {
        self.current_usage
    }

    /// The settings in force.
    pub closed spec fn settings(self) -> MemoryConfig {
        self.config
    }

    /// The pooled buffers of each size class.
    pub closed spec fn pool(self, class: int) -> Seq<Vec<u8>> {
        if class == 0 {
            self.image_pool.small_buffers@
        } else if class == 1 {
            self.image_pool.medium_buffers@
        } else {
            self.image_pool.large_buffers@
        }
    }

    /// When the periodic check was switched on (seconds since the epoch), 0
    /// when it is off.
    pub closed spec fn monitoring(self) -> u64 {
        self.monitoring_active
    }

    /// Allocation identifiers are unique, below the next one handed out,
    /// and the usage is the total of the recorded sizes.
    pub closed spec fn wf(self) -> bool {
        &&& self.next_id >= 1
        &&& forall|i: int| 0 <= i < self.records().len() ==> (#[trigger] self.records()[i]).0 < self.next_id
        &&& forall|i: int, j: int|
            0 <= i < j < self.records().len() ==> #[trigger] self.records()[i].0 != #[trigger] self.records()[j].0
        &&& self.current_usage == total_size(self.records())
        &&& keys_distinct(self.component_entries())
        &&& self.image_pool.max_pool_size == pool_limit()
        &&& self.image_pool.small_buffers@.len() <= pool_limit()
        &&& self.image_pool.medium_buffers@.len() <= pool_limit()
        &&& self.image_pool.large_buffers@.len() <= pool_limit()
    }

    /// The position of the record of the allocation with identifier `id`,
    /// when it is recorded.
    pub open spec fn record_index(self, id: usize) -> int {
        choose|i: int| 0 <= i < self.records().len() && #[trigger] self.records()[i].0 == id
    }

    /// The component the allocation with identifier `id` belongs to, when
    /// it is recorded.
    pub open spec fn component_of(self, id: usize) -> Seq<char> {
        self.record_components()[self.record_index(id)]
    }

    /// The allocation with identifier `id`, if it is recorded.
    pub open spec fn record_of(self, id: usize) -> Option<u64> {
        if exists|i: int| 0 <= i < self.records().len() && #[trigger] self.records()[i].0 == id {
            Some(self.records()[choose|i: int| 0 <= i < self.records().len() && #[trigger] self.records()[i].0 == id].1)
        } else {
            None
        }
    }

    /// A manager with nothing allocated, empty pools and default settings.
    pub fn new() -> (m: Self)
        ensures
            m.wf(),
            m.usage() == 0,
            m.records() == Seq::<(usize, u64)>::empty(),
            m.components() == Map::<Seq<char>, u64>::empty(),
            m.pool(0).len() == 0 && m.pool(1).len() == 0 && m.pool(2).len() == 0,
            m.settings() == MemoryConfig::default_config_spec(),
            m.monitoring() == 0,
    {
        let m = MemoryManager {
            current_usage: 0,
            component_usage: Vec::new(),
            allocations: Vec::new(),
            image_pool: ImageBufferPool {
                small_buffers: Vec::new(),
                medium_buffers: Vec::new(),
                large_buffers: Vec::new(),
                max_pool_size: 10,
            },
            config: MemoryConfig::default_config(),
            monitoring_active: 0,
            next_id: 1,
        };
        assert(m.records() =~= Seq::<(usize, u64)>::empty());
        assert(m.component_entries() =~= Seq::<(Seq<char>, u64)>::empty());
        assert(m.components() =~= Map::<Seq<char>, u64>::empty());
        m
    }
}

impl MemoryConfig {
    /// The default settings.
    pub open spec fn default_config_spec() -> MemoryConfig {
        MemoryConfig {
            max_total_memory: 4_000_000_000,
            profiling_enabled: false,
            check_interval: 30,
            cleanup_threshold_percent: 80,
            emergency_threshold_percent: 95,
            emergency_cleanup_enabled: true,
        }
    }
}

impl MemoryManager {
    /// The identifier the next allocation receives.
    pub closed spec fn next_identifier(self) -> usize {
        self.next_id
    }

    /// Bytes currently held.
    pub fn current_usage(&self) -> (u: u64)
        ensures
            u == self.usage(),
    {
        self.current_usage
    }

    /// Records `size` bytes for `component` and returns the allocation's
    /// identifier, or fails when the total would pass the limit.
    pub fn allocate(&mut self, size: u64, component: &str) -> (r: Result<usize, LunaError>)
        requires
            old(self).wf(),
        ensures
            final(self).wf(),
            final(self).settings() == old(self).settings(),
            final(self).monitoring() == old(self).monitoring(),
            forall|c: int| #[trigger] final(self).pool(c) == old(self).pool(c),
            r is Err <==> (old(self).usage() + size > old(self).settings().max_total_memory
                || old(self).next_identifier() == usize::MAX),
            r is Err ==> final(self).records() == old(self).records() && final(self).usage() == old(self).usage() && final(self).components() == old(self).components(),
            old(self).usage() + size > old(self).settings().max_total_memory ==> {
                &&& r matches Err(LunaError::Memory { current_usage: u, limit: l, .. })
                &&& u == (if old(self).usage() + size > u64::MAX {
                    u64::MAX as int
                } else {
                    old(self).usage() + size
                })
                &&& l == old(self).settings().max_total_memory
            },
            r is Err ==> final(self).record_components() == old(self).record_components(),
            r matches Ok(id) ==> {
                &&& id == old(self).next_identifier()
                &&& id > 0
                &&& old(self).record_of(id) is None
                &&& final(self).records() == old(self).records().push((id, size))
                &&& final(self).record_components() == old(self).record_components().push(component@)
                &&& final(self).usage() == old(self).usage() + size
                &&& final(self).components() == charged(old(self).components(), component@, size)
            },
    {
        let max = self.config.max_total_memory;
        if size > max || self.current_usage > max - size {
            let reported = self.current_usage.saturating_add(size);
            return Err(
                LunaError::memory("Memory allocation would exceed limit", reported, max),
            );
        }
        if self.next_id == usize::MAX {
            return Err(
                LunaError::memory(
                    "Allocation identifiers exhausted",
                    self.current_usage,
                    max,
                ),
            );
        }
        let id = self.next_id;
        let ghost recs = self.records();
        proof {
            if exists|i: int| 0 <= i < recs.len() && #[trigger] recs[i].0 == id {
                let i = choose|i: int| 0 <= i < recs.len() && #[trigger] recs[i].0 == id;
                assert(recs[i].0 < self.next_id);
            }
        }
        let ghost comps = self.record_components();
        self.allocations.push((id, AllocationInfo { size, component: String::from_str(component) }));
        assert(self.records() =~= recs.push((id, size)));
        assert(self.record_components() =~= comps.push(component@));
        assert(recs.push((id, size)).drop_last() =~= recs);
        self.current_usage = self.current_usage + size;
        self.next_id = self.next_id + 1;
        self.add_component_usage(component, size);
        Ok(id)
    }

    /// Adds `size` bytes to the total of `component`, saturating.
    fn add_component_usage(&mut self, component: &str, size: u64)
        requires
            keys_distinct(old(self).component_entries()),
        ensures
            keys_distinct(final(self).component_entries()),
            final(self).records() == old(self).records(),
            final(self).record_components() == old(self).record_components(),
            final(self).current_usage == old(self).current_usage,
            final(self).next_id == old(self).next_id,
            final(self).config == old(self).config,
            final(self).monitoring_active == old(self).monitoring_active,
            final(self).image_pool == old(self).image_pool,
            final(self).components() == old(self).components().insert(
                component@,
                if old(self).components().contains_key(component@) {
                    if old(self).components()[component@] + size > u64::MAX {
                        u64::MAX
                    } else {
                        (old(self).components()[component@] + size) as u64
                    }
                } else {
                    size
                },
            ),
    {
        let ghost e = self.component_entries();
        match find_key(&self.component_usage, component) {
            Some(i) => {
                proof {
                    crate::kv::lemma_as_map_at(e, i as int);
                }
                let v = self.component_usage[i].1.saturating_add(size);
                let k = self.component_usage[i].0.clone();
                self.component_usage.set(i, (k, v));
                proof {
                    assert(self.component_entries() =~= e.update(i as int, (e[i as int].0, v)));
                    lemma_as_map_update(e, i as int, v);
                }
            },
            None => {
                proof {
                    if has_key(e, component@) {
                        let j = crate::kv::key_index(e, component@);
                        assert(self.component_usage@[j].0@ == component@);
                    }
                }
                self.component_usage.push((String::from_str(component), size));
                proof {
                    assert(self.component_entries() =~= e.push((component@, size)));
                    lemma_as_map_push(e, component@, size);
                }
            },
        }
    }

    /// Takes `size` bytes off the total of `component`, saturating, and
    /// forgets the component when its total reaches 0.
    fn remove_component_usage(&mut self, component: &String, size: u64)
        requires
            keys_distinct(old(self).component_entries()),
        ensures
            keys_distinct(final(self).component_entries()),
            final(self).records() == old(self).records(),
            final(self).record_components() == old(self).record_components(),
            final(self).current_usage == old(self).current_usage,
            final(self).next_id == old(self).next_id,
            final(self).config == old(self).config,
            final(self).monitoring_active == old(self).monitoring_active,
            final(self).image_pool == old(self).image_pool,
            final(self).components() == (if old(self).components().contains_key(component@) {
                if old(self).components()[component@] <= size {
                    old(self).components().remove(component@)
                } else {
                    old(self).components().insert(
                        component@,
                        (old(self).components()[component@] - size) as u64,
                    )
                }
            } else {
                old(self).components()
            }),
    {
        let ghost e = self.component_entries();
        match find_key(&self.component_usage, component.as_str()) {
            Some(i) => {
                proof {
                    crate::kv::lemma_as_map_at(e, i as int);
                }
                let v = self.component_usage[i].1.saturating_sub(size);
                if v == 0 {
                    self.component_usage.remove(i);
                    proof {
                        assert(self.component_entries() =~= e.remove(i as int));
                        crate::kv::lemma_as_map_remove(e, i as int);
                    }
                } else {
                    let k = self.component_usage[i].0.clone();
                    self.component_usage.set(i, (k, v));
                    proof {
                        assert(self.component_entries() =~= e.update(i as int, (e[i as int].0, v)));
                        lemma_as_map_update(e, i as int, v);
                    }
                }
            },
            None => {
                proof {
                    if has_key(e, component@) {
                        let j = crate::kv::key_index(e, component@);
                        assert(self.component_usage@[j].0@ == component@);
                    }
                }
            },
        }
    }

    /// Forgets allocation `allocation_id`, returning its bytes; an unknown
    /// identifier changes nothing. Never fails.
    pub fn deallocate(&mut self, allocation_id: usize) -> (r: Result<(), LunaError>)
        requires
            old(self).wf(),
        ensures
            final(self).wf(),
            r is Ok,
            final(self).settings() == old(self).settings(),
            final(self).monitoring() == old(self).monitoring(),
            final(self).next_identifier() == old(self).next_identifier(),
            forall|c: int| #[trigger] final(self).pool(c) == old(self).pool(c),
            old(self).record_of(allocation_id) is None ==> final(self).records() == old(self).records() && final(self).usage() == old(self).usage() && final(self).components()
                == old(self).components(),
            old(self).record_of(allocation_id) matches Some(size) ==> final(self).usage() == old(self).usage() - size && final(self).record_of(allocation_id) is None && final(self).records().len() == old(self).records().len() - 1,
            old(self).record_of(allocation_id) matches Some(size) ==> final(self).components() == released(
                old(self).components(),
                old(self).component_of(allocation_id),
                size,
            ),
            old(self).record_of(allocation_id) is Some ==> final(self).records() == old(self).records().remove(
                old(self).record_index(allocation_id),
            ) && final(self).record_components() == old(self).record_components().remove(
                old(self).record_index(allocation_id),
            ),
            old(self).record_of(allocation_id) is None ==> final(self).record_components() == old(self).record_components(),
    {
        let ghost recs = self.records();
        let mut i: usize = 0;
        while i < self.allocations.len() && self.allocations[i].0 != allocation_id
            invariant
                i <= self.allocations.len(),
                recs == self.records(),
                forall|q: int| 0 <= q < i ==> (#[trigger] recs[q]).0 != allocation_id,
            decreases self.allocations.len() - i,
        {
            i = i + 1;
        }
        if i == self.allocations.len() {
            assert(!(exists|q: int| 0 <= q < recs.len() && #[trigger] recs[q].0 == allocation_id));
            return Ok(());
        }
        proof {
            assert(recs[i as int].0 == allocation_id);
            let c = choose|q: int| 0 <= q < recs.len() && #[trigger] recs[q].0 == allocation_id;
            if c != i {
                if c < i {
                    assert(recs[c].0 != recs[i as int].0);
                } else {
                    assert(recs[i as int].0 != recs[c].0);
                }
            }
            lemma_total_size_remove(recs, i as int);
        }
        proof {
            let c = choose|q: int| 0 <= q < recs.len() && #[trigger] recs[q].0 == allocation_id;
            assert(c == i as int) by {
                if c != i {
                    if c < i {
                        assert(recs[c].0 != recs[i as int].0);
                    } else {
                        assert(recs[i as int].0 != recs[c].0);
                    }
                }
            }
            assert(self.record_components()[i as int] == self.allocations@[i as int].1.component@);
        }
        let ghost comps = self.record_components();
        let (_, info) = self.allocations.remove(i);
        proof {
            assert(self.records() =~= recs.remove(i as int));
            assert(self.record_components() =~= comps.remove(i as int));
        }
        self.current_usage = self.current_usage - info.size;
        self.remove_component_usage(&info.component, info.size);
        proof {
            let r2 = self.records();
            assert forall|q: int| 0 <= q < r2.len() implies (#[trigger] r2[q]).0 != allocation_id by {
                if q < i {
                    assert(r2[q] == recs[q]);
                    assert(recs[q].0 != recs[i as int].0);
                } else {
                    assert(r2[q] == recs[q + 1]);
                    assert(recs[i as int].0 != recs[q + 1].0);
                }
            }
            assert forall|a: int, b: int| 0 <= a < b < r2.len() implies #[trigger] r2[a].0
                != #[trigger] r2[b].0 by {
                let a1 = if a < i {
                    a
                } else {
                    a + 1
                };
                let b1 = if b < i {
                    b
                } else {
                    b + 1
                };
                assert(r2[a] == recs[a1] && r2[b] == recs[b1]);
            }
            assert forall|q: int| 0 <= q < r2.len() implies (#[trigger] r2[q]).0 < self.next_id by {
                if q < i {
                    assert(r2[q] == recs[q]);
                } else {
                    assert(r2[q] == recs[q + 1]);
                }
            }
        }
        Ok(())
    }
}

impl MemoryManager {
    /// A zero-filled buffer of `size` bytes, reusing the last pooled buffer
    /// of the size class when there is one.
    pub fn get_image_buffer(&mut self, size: usize) -> (buf: Vec<u8>)
        requires
            old(self).wf(),
        ensures
            final(self).wf(),
            buf@ == zeros(size as int),
            final(self).records() == old(self).records(),
            final(self).usage() == old(self).usage(),
            final(self).components() == old(self).components(),
            final(self).settings() == old(self).settings(),
            final(self).monitoring() == old(self).monitoring(),
            final(self).next_identifier() == old(self).next_identifier(),
            forall|c: int|
                #![trigger final(self).pool(c)]
                0 <= c <= 2 ==> final(self).pool(c) == (if c == size_class(size as int) && old(
                    self,
                ).pool(c).len() > 0 {
                    old(self).pool(c).drop_last()
                } else {
                    old(self).pool(c)
                }),
    {
        let popped = if size < 1_000_000 {
            self.image_pool.small_buffers.pop()
        } else if size < 10_000_000 {
            self.image_pool.medium_buffers.pop()
        } else {
            self.image_pool.large_buffers.pop()
        };
        match popped {
            Some(mut buf) => {
                if capacity_of(&buf) >= size {
                    refill_zeros(&mut buf, size);
                    buf
                } else {
                    let mut fresh: Vec<u8> = Vec::new();
                    refill_zeros(&mut fresh, size);
                    fresh
                }
            },
            None => {
                let mut fresh: Vec<u8> = Vec::new();
                refill_zeros(&mut fresh, size);
                fresh
            },
        }
    }

    /// Keeps `buffer` for reuse, by its capacity `capacity`, in the first
    /// class it fits that has room: small under 1 MB, medium under 10 MB,
    /// then large; otherwise it is dropped.
    pub fn return_image_buffer_with_capacity(&mut self, buffer: Vec<u8>, capacity: usize)
        requires
            old(self).wf(),
        ensures
            final(self).wf(),
            final(self).records() == old(self).records(),
            final(self).usage() == old(self).usage(),
            final(self).components() == old(self).components(),
            final(self).settings() == old(self).settings(),
            final(self).monitoring() == old(self).monitoring(),
            final(self).next_identifier() == old(self).next_identifier(),
            ({
                let to_small = capacity < 1_000_000 && old(self).pool(0).len() < pool_limit();
                let to_medium = !to_small && capacity < 10_000_000 && old(self).pool(1).len()
                    < pool_limit();
                let to_large = !to_small && !to_medium && old(self).pool(2).len() < pool_limit();
                &&& final(self).pool(0) == (if to_small {
                    old(self).pool(0).push(buffer)
                } else {
                    old(self).pool(0)
                })
                &&& final(self).pool(1) == (if to_medium {
                    old(self).pool(1).push(buffer)
                } else {
                    old(self).pool(1)
                })
                &&& final(self).pool(2) == (if to_large {
                    old(self).pool(2).push(buffer)
                } else {
                    old(self).pool(2)
                })
            }),
    {
        let max = self.image_pool.max_pool_size;
        if capacity < 1_000_000 && self.image_pool.small_buffers.len() < max {
            self.image_pool.small_buffers.push(buffer);
        } else if capacity < 10_000_000 && self.image_pool.medium_buffers.len() < max {
            self.image_pool.medium_buffers.push(buffer);
        } else if self.image_pool.large_buffers.len() < max {
            self.image_pool.large_buffers.push(buffer);
        }
    }

    /// Keeps `buffer` for reuse, classed by its capacity.
    pub fn return_image_buffer(&mut self, buffer: Vec<u8>)
        requires
            old(self).wf(),
        ensures
            final(self).wf(),
            final(self).records() == old(self).records(),
            final(self).usage() == old(self).usage(),
            final(self).components() == old(self).components(),
            final(self).settings() == old(self).settings(),
            final(self).monitoring() == old(self).monitoring(),
            final(self).pool(0).len() + final(self).pool(1).len() + final(self).pool(2).len()
                <= old(self).pool(0).len() + old(self).pool(1).len() + old(self).pool(2).len() + 1,
            final(self).next_identifier() == old(self).next_identifier(),
            exists|capacity: usize|
                #![trigger old(self).pooled_with(*final(self), buffer, capacity)]
                capacity >= buffer@.len() && old(self).pooled_with(*final(self), buffer, capacity),
    {
        let capacity = capacity_of(&buffer);
        let ghost before = *self;
        let ghost b = buffer;
        self.return_image_buffer_with_capacity(buffer, capacity);
        assert(before.pooled_with(*self, b, capacity));
    }

    /// The pools of `after` are those of `self` once `buffer`, of capacity
    /// `capacity`, went to the first class it fits that has room (small
    /// under 1 MB, medium under 10 MB, then large), or nowhere.
    pub open spec fn pooled_with(self, after: Self, buffer: Vec<u8>, capacity: usize) -> bool {
        let to_small = capacity < 1_000_000 && self.pool(0).len() < pool_limit();
        let to_medium = !to_small && capacity < 10_000_000 && self.pool(1).len() < pool_limit();
        let to_large = !to_small && !to_medium && self.pool(2).len() < pool_limit();
        &&& after.pool(0) == (if to_small {
            self.pool(0).push(buffer)
        } else {
            self.pool(0)
        })
        &&& after.pool(1) == (if to_medium {
            self.pool(1).push(buffer)
        } else {
            self.pool(1)
        })
        &&& after.pool(2) == (if to_large {
            self.pool(2).push(buffer)
        } else {
            self.pool(2)
        })
    }

    /// The numbers of pooled buffers per class.
    pub fn pool_counts(&self) -> (counts: (usize, usize, usize))
        ensures
            counts.0 == self.pool(0).len(),
            counts.1 == self.pool(1).len(),
            counts.2 == self.pool(2).len(),
    {
        (
            self.image_pool.small_buffers.len(),
            self.image_pool.medium_buffers.len(),
            self.image_pool.large_buffers.len(),
        )
    }

    /// Fails when the system has less than 1 GB available (`available`
    /// bytes).
    pub fn validate_memory_requirements_with(&self, available: u64) -> (r: Result<(), LunaError>)
        ensures
            r is Err <==> available < 1_000_000_000,
            r is Err ==> {
                &&& r matches Err(LunaError::Memory { current_usage: u, limit: l, .. })
                &&& u == self.usage()
                &&& l == 1_000_000_000
            },
    {
        if available < 1_000_000_000 {
            return Err(
                LunaError::memory("Insufficient system memory", self.current_usage, 1_000_000_000),
            );
        }
        Ok(())
    }

    /// Checks the available memory against the 1 GB minimum.
    pub fn validate_memory_requirements(&self) -> (r: Result<(), LunaError>)
        ensures
            r is Ok,
    {
        self.validate_memory_requirements_with(get_available_memory())
    }

    /// Takes `config` into use; with profiling on, the periodic check is
    /// marked as started (the caller runs it).
    pub fn init(&mut self, config: MemoryConfig) -> (r: Result<(), LunaError>)
        requires
            old(self).wf(),
        ensures
            final(self).wf(),
            r is Ok,
            final(self).settings() == config,
            final(self).records() == old(self).records(),
            final(self).usage() == old(self).usage(),
            final(self).components() == old(self).components(),
            final(self).next_identifier() == old(self).next_identifier(),
            forall|c: int| #[trigger] final(self).pool(c) == old(self).pool(c),
            !config.profiling_enabled ==> final(self).monitoring() == old(self).monitoring(),
    {
        let profiling = config.profiling_enabled;
        self.config = config;
        if profiling {
            self.monitoring_active = crate::util::clock_millis() / 1000;
        }
        self.validate_memory_requirements()
    }

    /// Usage statistics. The pooled bytes are the buffers' capacities,
    /// which the allocator decides; they are not stated.
    pub fn get_stats(&self) -> (st: MemoryStats)
        ensures
            st.current_usage == self.usage(),
            st.total_allocated == saturating_total(self.component_entries()),
            st.component_breakdown@.map_values(|e: (String, u64)| (e.0@, e.1))
                == self.component_entries(),
            st.pool_usage.small_buffers == self.pool(0).len(),
            st.pool_usage.medium_buffers == self.pool(1).len(),
            st.pool_usage.large_buffers == self.pool(2).len(),
            st.system_available == 4_000_000_000,
            st.gc_runs == 0,
            st.emergency_cleanups == 0,
            self.wf() ==> st.pool_usage.small_buffers <= 10 && st.pool_usage.medium_buffers <= 10
                && st.pool_usage.large_buffers <= 10,
            exists|p0: u64, p1: u64, p2: u64|
                #![trigger sum3_capped(p0, p1, p2)]
                pooled_total_of(self.pool(0), p0) && pooled_total_of(self.pool(1), p1) && pooled_total_of(self.pool(2), p2)
                    && st.pool_usage.total_pooled_memory == sum3_capped(p0, p1, p2),
            self.pool(0).len() == 0 && self.pool(1).len() == 0 && self.pool(2).len() == 0
                ==> st.pool_usage.total_pooled_memory == 0,
            st.total_allocated == saturating_total(st.component_breakdown@.map_values(|e: (String, u64)| (e.0@, e.1))),
    {
        let mut breakdown: Vec<(String, u64)> = Vec::new();
        let mut total: u64 = 0;
        let mut i: usize = 0;
        while i < self.component_usage.len()
            invariant
                i <= self.component_usage.len(),
                breakdown@.map_values(|e: (String, u64)| (e.0@, e.1))
                    == self.component_entries().take(i as int),
                total == saturating_total(self.component_entries().take(i as int)),
            decreases self.component_usage.len() - i,
        {
            let ghost e = self.component_entries();
            assert(e.take(i + 1).drop_last() =~= e.take(i as int));
            total = total.saturating_add(self.component_usage[i].1);
            breakdown.push((self.component_usage[i].0.clone(), self.component_usage[i].1));
            assert(breakdown@.map_values(|e: (String, u64)| (e.0@, e.1)) =~= e.take(i + 1));
            i = i + 1;
        }
        assert(self.component_entries().take(i as int) =~= self.component_entries());
        let p0 = pooled_bytes(&self.image_pool.small_buffers);
        let p1 = pooled_bytes(&self.image_pool.medium_buffers);
        let p2 = pooled_bytes(&self.image_pool.large_buffers);
        let pooled = p0.saturating_add(p1).saturating_add(p2);
        assert(pooled_total_of(self.pool(0), p0));
        assert(pooled_total_of(self.pool(1), p1));
        assert(pooled_total_of(self.pool(2), p2));
        assert(sum3_capped(p0, p1, p2) == pooled);
        MemoryStats {
            total_allocated: total,
            current_usage: self.current_usage,
            component_breakdown: breakdown,
            pool_usage: PoolStats {
                small_buffers: self.image_pool.small_buffers.len(),
                medium_buffers: self.image_pool.medium_buffers.len(),
                large_buffers: self.image_pool.large_buffers.len(),
                total_pooled_memory: pooled,
            },
            system_available: get_available_memory(),
            gc_runs: 0,
            emergency_cleanups: 0,
        }
    }

    /// Drops every pooled buffer and every allocation record, and stops the
    /// periodic check.
    pub fn cleanup_all(&mut self) -> (r: Result<(), LunaError>)
        requires
            old(self).wf(),
        ensures
            final(self).wf(),
            r is Ok,
            final(self).monitoring() == 0,
            final(self).usage() == 0,
            final(self).records() == Seq::<(usize, u64)>::empty(),
            final(self).components() == Map::<Seq<char>, u64>::empty(),
            final(self).pool(0).len() == 0 && final(self).pool(1).len() == 0 && final(self).pool(
                2,
            ).len() == 0,
            final(self).settings() == old(self).settings(),
            final(self).next_identifier() == old(self).next_identifier(),
    {
        self.monitoring_active = 0;
        self.image_pool.small_buffers.clear();
        self.image_pool.medium_buffers.clear();
        self.image_pool.large_buffers.clear();
        self.allocations.clear();
        self.component_usage.clear();
        self.current_usage = 0;
        assert(self.records() =~= Seq::<(usize, u64)>::empty());
        assert(self.component_entries() =~= Seq::<(Seq<char>, u64)>::empty());
        assert(self.components() =~= Map::<Seq<char>, u64>::empty());
        Ok(())
    }
}

/// The usage, in bytes, above which a check asks for a cleanup at
/// `percent` percent of `max`.
pub open spec fn usage_threshold(max: u64, percent: u64) -> int {
    max * percent / 100
}

/// What a usage check calls for.
#[derive(Debug, Clone, Copy, PartialEq, Eq)]
pub struct CleanupNeeds {
    /// The usage is above the cleanup threshold.
    pub cleanup: bool,
    /// The usage is above the emergency threshold and emergency cleanups
    /// are on.
    pub emergency: bool,
}

impl MemoryManager {
    /// Compares the usage with the cleanup and emergency thresholds of the
    /// settings.
    pub fn check_memory_usage(&self) -> (n: CleanupNeeds)
        ensures
            n.cleanup == (self.usage() > usage_threshold(
                self.settings().max_total_memory,
                self.settings().cleanup_threshold_percent,
            )),
            n.emergency == (self.usage() > usage_threshold(
                self.settings().max_total_memory,
                self.settings().emergency_threshold_percent,
            ) && self.settings().emergency_cleanup_enabled),
    {
        let max = self.config.max_total_memory as u128;
        assert(max * (self.config.cleanup_threshold_percent as u128) <= 0xffff_ffff_ffff_ffffu128 * 0xffff_ffff_ffff_ffffu128) by (nonlinear_arith)
            requires
                max <= 0xffff_ffff_ffff_ffffu128,
                self.config.cleanup_threshold_percent as u128 <= 0xffff_ffff_ffff_ffffu128,
        ;
        assert(max * (self.config.emergency_threshold_percent as u128) <= 0xffff_ffff_ffff_ffffu128 * 0xffff_ffff_ffff_ffffu128) by (nonlinear_arith)
            requires
                max <= 0xffff_ffff_ffff_ffffu128,
                self.config.emergency_threshold_percent as u128 <= 0xffff_ffff_ffff_ffffu128,
        ;
        let cleanup_at = max * (self.config.cleanup_threshold_percent as u128) / 100;
        let emergency_at = max * (self.config.emergency_threshold_percent as u128) / 100;
        let usage = self.current_usage as u128;
        CleanupNeeds {
            cleanup: usage > cleanup_at,
            emergency: usage > emergency_at && self.config.emergency_cleanup_enabled,
        }
    }

    /// Keeps the first half, rounded down, of each pool's buffers.
    pub fn cleanup_buffer_pools(&mut self)
        requires
            old(self).wf(),
        ensures
            final(self).wf(),
            forall|c: int| 0 <= c < 3 ==> #[trigger] final(self).pool(c) == old(self).pool(c).take(old(self).pool(c).len() as int / 2),
            final(self).records() == old(self).records(),
            final(self).usage() == old(self).usage(),
            final(self).components() == old(self).components(),
            final(self).settings() == old(self).settings(),
            final(self).monitoring() == old(self).monitoring(),
            final(self).next_identifier() == old(self).next_identifier(),
    {
        let n0 = self.image_pool.small_buffers.len() / 2;
        self.image_pool.small_buffers.truncate(n0);
        let n1 = self.image_pool.medium_buffers.len() / 2;
        self.image_pool.medium_buffers.truncate(n1);
        let n2 = self.image_pool.large_buffers.len() / 2;
        self.image_pool.large_buffers.truncate(n2);
        assert(self.records() =~= old(self).records());
        assert(self.component_entries() =~= old(self).component_entries());
    }

    /// Drops every pooled buffer.
    pub fn clear_all_buffers(&mut self)
        requires
            old(self).wf(),
        ensures
            final(self).wf(),
            forall|c: int| 0 <= c < 3 ==> (#[trigger] final(self).pool(c)).len() == 0,
            final(self).records() == old(self).records(),
            final(self).usage() == old(self).usage(),
            final(self).components() == old(self).components(),
            final(self).settings() == old(self).settings(),
            final(self).monitoring() == old(self).monitoring(),
            final(self).next_identifier() == old(self).next_identifier(),
    {
        self.image_pool.small_buffers.clear();
        self.image_pool.medium_buffers.clear();
        self.image_pool.large_buffers.clear();
        assert(self.records() =~= old(self).records());
        assert(self.component_entries() =~= old(self).component_entries());
    }
}

/// The totals per component `m` once `size` more bytes are charged to
/// `component`, saturating.
pub open spec fn charged(m: Map<Seq<char>, u64>, component: Seq<char>, size: u64) -> Map<Seq<char>, u64> {
    m.insert(
        component,
        if m.contains_key(component) {
            if m[component] + size > u64::MAX {
                u64::MAX
            } else {
                (m[component] + size) as u64
            }
        } else {
            size
        },
    )
}

/// Charging `size` bytes to a component and releasing them again gives
/// the totals back, unless the component's total saturated or was an
/// entry of 0 bytes (which the release then drops).
pub proof fn lemma_charge_release(m: Map<Seq<char>, u64>, component: Seq<char>, size: u64)
    requires
        m.contains_key(component) ==> 0 < m[component] && m[component] + size <= u64::MAX,
    ensures
        released(charged(m, component, size), component, size) == m,
{
    if m.contains_key(component) {
        assert(released(charged(m, component, size), component, size) =~= m);
    } else {
        assert(released(charged(m, component, size), component, size) =~= m);
    }
}

/// The totals per component `m` once `size` bytes of `component` are
/// released: less by `size`, and the component forgotten when nothing of it
/// is left.
pub open spec fn released(m: Map<Seq<char>, u64>, component: Seq<char>, size: u64) -> Map<Seq<char>, u64> {
    if m.contains_key(component) {
        if m[component] <= size {
            m.remove(component)
        } else {
            m.insert(component, (m[component] - size) as u64)
        }
    } else {
        m
    }
}

/// The sum of the values of `s`, stopping at `u64::MAX`.
pub open spec fn saturating_total(s: Seq<(Seq<char>, u64)>) -> u64
    decreases s.len(),
{
    if s.len() == 0 {
        0
    } else {
        let t = saturating_total(s.drop_last()) + s.last().1;
        if t > u64::MAX {
            u64::MAX
        } else {
            t as u64
        }
    }
}

/// The sum of `caps`, stopping at `u64::MAX`.
pub open spec fn capped_sum(caps: Seq<usize>) -> u64
    decreases caps.len(),
{
    if caps.len() == 0 {
        0
    } else {
        let t = capped_sum(caps.drop_last()) + caps.last();
        if t > u64::MAX {
            u64::MAX
        } else {
            t as u64
        }
    }
}

/// `n` is a capped sum of one capacity per buffer of `buffers`, each at
/// least the buffer's length.
pub open spec fn pooled_total_of(buffers: Seq<Vec<u8>>, n: u64) -> bool {
    exists|caps: Seq<usize>|
        #![trigger capped_sum(caps)]
        caps.len() == buffers.len() && (forall|i: int| 0 <= i < caps.len() ==> #[trigger] caps[i] >= buffers[i]@.len())
            && n == capped_sum(caps)
}

/// `a + b + c`, stopping at `u64::MAX`.
pub open spec fn sum3_capped(a: u64, b: u64, c: u64) -> u64 {
    let ab: u64 = if a + b > u64::MAX { u64::MAX } else { (a + b) as u64 };
    if ab + c > u64::MAX { u64::MAX } else { (ab + c) as u64 }
}

/// The total capacity of `buffers`, saturating: the capped sum of one
/// capacity per buffer, each at least the buffer's length (the allocator
/// decides the exact values).
fn pooled_bytes(buffers: &Vec<Vec<u8>>) -> (n: u64)
    ensures
        exists|caps: Seq<usize>|
            #![trigger capped_sum(caps)]
            caps.len() == buffers@.len() && (forall|i: int| 0 <= i < caps.len() ==> #[trigger] caps[i] >= buffers@[i]@.len())
                && n == capped_sum(caps),
        buffers@.len() == 0 ==> n == 0,
{
    let mut n: u64 = 0;
    let mut i: usize = 0;
    let ghost mut caps: Seq<usize> = Seq::empty();
    while i < buffers.len()
        invariant
            i <= buffers.len(),
            caps.len() == i,
            forall|q: int| 0 <= q < caps.len() ==> #[trigger] caps[q] >= buffers@[q]@.len(),
            n == capped_sum(caps),
        decreases buffers.len() - i,
    {
        let c = capacity_of(&buffers[i]);
        let ghost prev = caps;
        proof {
            caps = caps.push(c);
            assert(caps.drop_last() =~= prev);
        }
        n = n.saturating_add(c as u64);
        i = i + 1;
    }
    n
}

/// Takes `config` into use (see `MemoryManager::init`).
pub fn init(manager: &mut MemoryManager, config: MemoryConfig) -> (r: Result<(), LunaError>)
    requires
        old(manager).wf(),
    ensures
        final(manager).wf(),
        r is Ok,
        final(manager).settings() == config,
        final(manager).usage() == old(manager).usage(),
{
    manager.init(config)
}

/// Bytes currently held.
pub fn get_current_usage(manager: &MemoryManager) -> (u: u64)
    ensures
        u == manager.usage(),
{
    manager.current_usage()
}

/// Checks the available memory against the 1 GB minimum.
pub fn validate_memory_requirements(manager: &MemoryManager) -> (r: Result<(), LunaError>)
    ensures
        r is Ok,
{
    manager.validate_memory_requirements()
}

/// Records an allocation (see `MemoryManager::allocate`).
pub fn allocate(manager: &mut MemoryManager, size: u64, component: &str) -> (r: Result<usize, LunaError>)
    requires
        old(manager).wf(),
    ensures
        final(manager).wf(),
        r is Err <==> (old(manager).usage() + size > old(manager).settings().max_total_memory
            || old(manager).next_identifier() == usize::MAX),
        r matches Ok(id) ==> id > 0 && final(manager).usage() == old(manager).usage() + size
            && final(manager).record_of(id) == Some(size),
        r is Err ==> final(manager).usage() == old(manager).usage(),
        r is Err ==> final(manager).records() == old(manager).records() && final(manager).components() == old(
            manager,
        ).components(),
        old(manager).usage() + size > old(manager).settings().max_total_memory ==> {
            &&& r matches Err(LunaError::Memory { current_usage: u, limit: l, .. })
            &&& u == (if old(manager).usage() + size > u64::MAX {
                u64::MAX as int
            } else {
                old(manager).usage() + size
            })
            &&& l == old(manager).settings().max_total_memory
        },
        r matches Ok(id) ==> {
            &&& id == old(manager).next_identifier()
            &&& old(manager).record_of(id) is None
            &&& final(manager).records() == old(manager).records().push((id, size))
            &&& final(manager).components() == charged(old(manager).components(), component@, size)
            &&& final(manager).record_components() == old(manager).record_components().push(component@)
        },
        r is Err ==> final(manager).record_components() == old(manager).record_components(),
        final(manager).settings() == old(manager).settings(),
        forall|c: int| #[trigger] final(manager).pool(c) == old(manager).pool(c),
{
    let r = manager.allocate(size, component);
    proof {
        if let Ok(id) = r {
            lemma_record_of_push(old(manager).records(), id, size);
        }
    }
    r
}

/// Forgets an allocation (see `MemoryManager::deallocate`).
pub fn deallocate(manager: &mut MemoryManager, allocation_id: usize) -> (r: Result<(), LunaError>)
    requires
        old(manager).wf(),
    ensures
        final(manager).wf(),
        r is Ok,
        old(manager).record_of(allocation_id) is None ==> final(manager).usage() == old(
            manager,
        ).usage(),
        old(manager).record_of(allocation_id) matches Some(size) ==> final(manager).usage()
            == old(manager).usage() - size && final(manager).record_of(allocation_id) is None,
        old(manager).record_of(allocation_id) is None ==> final(manager).records() == old(manager).records()
            && final(manager).components() == old(manager).components(),
        old(manager).record_of(allocation_id) is Some ==> final(manager).records() == old(manager).records().remove(
            old(manager).record_index(allocation_id),
        ) && final(manager).record_components() == old(manager).record_components().remove(
            old(manager).record_index(allocation_id),
        ),
        old(manager).record_of(allocation_id) is None ==> final(manager).record_components() == old(manager).record_components(),
        old(manager).record_of(allocation_id) matches Some(size) ==> final(manager).records().len() == old(
            manager,
        ).records().len() - 1 && final(manager).components() == released(
            old(manager).components(),
            old(manager).component_of(allocation_id),
            size,
        ),
        final(manager).settings() == old(manager).settings(),
        forall|c: int| #[trigger] final(manager).pool(c) == old(manager).pool(c),
{
    manager.deallocate(allocation_id)
}

/// A zero-filled buffer of `size` bytes (see
/// `MemoryManager::get_image_buffer`).
pub fn get_image_buffer(manager: &mut MemoryManager, size: usize) -> (buf: Vec<u8>)
    requires
        old(manager).wf(),
    ensures
        final(manager).wf(),
        buf@ == zeros(size as int),
        final(manager).usage() == old(manager).usage(),
{
    manager.get_image_buffer(size)
}

/// Keeps a buffer for reuse (see `MemoryManager::return_image_buffer`).
pub fn return_image_buffer(manager: &mut MemoryManager, buffer: Vec<u8>)
    requires
        old(manager).wf(),
    ensures
        final(manager).wf(),
        final(manager).usage() == old(manager).usage(),
        final(manager).records() == old(manager).records(),
        final(manager).components() == old(manager).components(),
        final(manager).settings() == old(manager).settings(),
        final(manager).monitoring() == old(manager).monitoring(),
        final(manager).next_identifier() == old(manager).next_identifier(),
        exists|capacity: usize|
            #![trigger old(manager).pooled_with(*final(manager), buffer, capacity)]
            capacity >= buffer@.len() && old(manager).pooled_with(*final(manager), buffer, capacity),
{
    manager.return_image_buffer(buffer)
}

/// Usage statistics (see `MemoryManager::get_stats`).
pub fn get_stats(manager: &MemoryManager) -> (st: MemoryStats)
    ensures
        st.current_usage == manager.usage(),
        st.total_allocated == saturating_total(manager.component_entries()),
        st.component_breakdown@.map_values(|e: (String, u64)| (e.0@, e.1)) == manager.component_entries(),
        st.pool_usage.small_buffers == manager.pool(0).len(),
        st.pool_usage.medium_buffers == manager.pool(1).len(),
        st.pool_usage.large_buffers == manager.pool(2).len(),
        st.system_available == 4_000_000_000,
        st.gc_runs == 0,
        st.emergency_cleanups == 0,
        manager.wf() ==> st.pool_usage.small_buffers <= 10 && st.pool_usage.medium_buffers <= 10
            && st.pool_usage.large_buffers <= 10,
        exists|p0: u64, p1: u64, p2: u64|
            #![trigger sum3_capped(p0, p1, p2)]
            pooled_total_of(manager.pool(0), p0) && pooled_total_of(manager.pool(1), p1) && pooled_total_of(
                manager.pool(2),
                p2,
            ) && st.pool_usage.total_pooled_memory == sum3_capped(p0, p1, p2),
        manager.pool(0).len() == 0 && manager.pool(1).len() == 0 && manager.pool(2).len() == 0
            ==> st.pool_usage.total_pooled_memory == 0,
        st.total_allocated == saturating_total(st.component_breakdown@.map_values(|e: (String, u64)| (e.0@, e.1))),
{
    manager.get_stats()
}

/// Drops all pooled buffers and records (see `MemoryManager::cleanup_all`).
pub fn cleanup_all(manager: &mut MemoryManager) -> (r: Result<(), LunaError>)
    requires
        old(manager).wf(),
    ensures
        final(manager).wf(),
        r is Ok,
        final(manager).monitoring() == 0,
        final(manager).usage() == 0,
        final(manager).records() == Seq::<(usize, u64)>::empty(),
        final(manager).components() == Map::<Seq<char>, u64>::empty(),
        final(manager).pool(0).len() == 0 && final(manager).pool(1).len() == 0 && final(manager).pool(2).len() == 0,
        final(manager).settings() == old(manager).settings(),
        final(manager).next_identifier() == old(manager).next_identifier(),
{
    manager.cleanup_all()
}

/// An allocation just recorded is found under its identifier with its
/// size, and releasing it takes exactly that size off the total.
pub proof fn lemma_record_of_push(s: Seq<(usize, u64)>, id: usize, size: u64)
    requires
        forall|i: int| 0 <= i < s.len() ==> (#[trigger] s[i]).0 != id,
    ensures
        ({
            let t = s.push((id, size));
            &&& exists|i: int| 0 <= i < t.len() && #[trigger] t[i].0 == id
            &&& t[choose|i: int| 0 <= i < t.len() && #[trigger] t[i].0 == id].1 == size
            &&& total_size(t) - size == total_size(s)
        }),
{
    let t = s.push((id, size));
    assert(t[s.len() as int].0 == id);
    let c = choose|i: int| 0 <= i < t.len() && #[trigger] t[i].0 == id;
    if c < s.len() {
        assert(t[c] == s[c]);
    }
    assert(t.drop_last() =~= s);
}

impl MemoryManager {
    /// The record of the last allocation is found at the end, with its
    /// component and size.
    pub proof fn lemma_last_record(self, id: usize)
        requires
            self.wf(),
            self.records().len() > 0,
            self.records().last().0 == id,
        ensures
            self.record_index(id) == self.records().len() - 1,
            self.component_of(id) == self.record_components().last(),
            self.record_of(id) == Some(self.records().last().1),
    {
        let n = self.records().len() - 1;
        assert(self.records()[n].0 == id);
        let c = self.record_index(id);
        if c != n {
            assert(self.records()[c].0 != self.records()[n].0);
        }
    }
}

/// Allocating `size` bytes for `component` and deallocating them again
/// gives the totals per component back: `m0` is the manager before, `m1`
/// after `allocate` gave `Ok(id)`, `m2` after `deallocate(id)`.  Unless the
/// component's total saturated or was an entry of 0 bytes.
pub proof fn lemma_allocate_deallocate(
    m0: MemoryManager,
    m1: MemoryManager,
    m2: MemoryManager,
    id: usize,
    size: u64,
    component: Seq<char>,
)
    requires
        m1.wf(),
        m1.records() == m0.records().push((id, size)),
        m1.record_components() == m0.record_components().push(component),
        m1.components() == charged(m0.components(), component, size),
        m2.components() == released(m1.components(), m1.component_of(id), size),
        m0.components().contains_key(component) ==> 0 < m0.components()[component] && m0.components()[component] + size
            <= u64::MAX,
    ensures
        m2.components() == m0.components(),
{
    m1.lemma_last_record(id);
    lemma_charge_release(m0.components(), component, size);
}

} // verus!
