use vstd::prelude::*;

use crate::entry::{Client, ConnPoolEntry, MetricsAuxInfo};
use crate::handle::ConnectionHandle;
use crate::pool::{
    acquire_spec, all_closed, all_open, contains_id, distinct_ids, lemma_acquire_all_closed,
    lemma_acquire_props, lemma_live_entries_props, lemma_remove_id_props, lemma_round_robin_step,
    live_entries_spec, remove_id_spec, EndpointConnPool,
};

verus! {

/// Static configuration the registry is created with.
#[derive(Clone, Copy, PartialEq, Eq, Structural, Debug)]
pub struct PoolConfig {
    /// Number of independently swept shards; at least one.
    pub pool_shards: usize,
    /// Reclamation epoch in milliseconds; at least one. Each tick sweeps one
    /// shard, so a full cycle completes once per epoch.
    pub gc_epoch_millis: u64,
}

/// One registry slot: an endpoint and the pool filed under it.
pub struct ShardEntry<C: ConnectionHandle> {
    pub endpoint: u64,
    pub pool: EndpointConnPool<C>,
}

/// Deltas of one reclamation sweep, reported to the metrics facade by the
/// caller.
#[derive(Clone, Copy, PartialEq, Eq, Structural, Debug)]
pub struct SweepOutcome {
    pub clients_removed: usize,
    pub pools_removed: usize,
}

/// Process-wide registry mapping endpoints to their reuse pools.
///
/// The map is partitioned into shards by endpoint identity so a sweep can
/// cover one shard at a time. The two counts are diagnostic: the connection
/// count may momentarily exceed the pooled total (reuse drops a closed entry
/// without touching it; the next explicit removal or sweep reconciles), and
/// the pool count is not lowered by `shutdown`, only by sweeps. Neither ever
/// falls below the live total, which is what keeps their bookkeeping sound.
pub struct GlobalConnPool<C: ConnectionHandle> {
    pub shards: Vec<Vec<ShardEntry<C>>>,
    pub global_pool_size: usize,
    pub global_connections_count: usize,
    pub config: PoolConfig,
}

/// The shard an endpoint is filed under.
pub open spec fn shard_of_spec(endpoint: u64, nshards: int) -> int {
    endpoint as int % nshards
}

/// No two slots of a shard name the same endpoint.
pub open spec fn distinct_endpoints<C: ConnectionHandle>(s: Seq<ShardEntry<C>>) -> bool {
    forall|a: int, b: int|
        0 <= a < b < s.len() ==> (#[trigger] s[a]).endpoint != (#[trigger] s[b]).endpoint
}

/// Some slot of the shard names the endpoint.
pub open spec fn shard_has<C: ConnectionHandle>(s: Seq<ShardEntry<C>>, endpoint: u64) -> bool {
    exists|j: int| 0 <= j < s.len() && (#[trigger] s[j]).endpoint == endpoint
}

/// The slot of the shard naming the endpoint (meaningful when `shard_has`).
pub open spec fn shard_find<C: ConnectionHandle>(s: Seq<ShardEntry<C>>, endpoint: u64) -> int {
    choose|j: int| 0 <= j < s.len() && (#[trigger] s[j]).endpoint == endpoint
}

/// Connections held by the slots of one shard.
pub open spec fn shard_conns<C: ConnectionHandle>(s: Seq<ShardEntry<C>>) -> int
    decreases s.len(),
{
    if s.len() == 0 {
        0
    } else {
        s[0].pool.conns@.len() + shard_conns(s.skip(1))
    }
}

/// Connections held by the shards before index `i`.
pub open spec fn conns_up_to<C: ConnectionHandle>(shards: Seq<Vec<ShardEntry<C>>>, i: int) -> int
    decreases i,
{
    if i <= 0 {
        0
    } else {
        conns_up_to(shards, i - 1) + shard_conns(shards[i - 1]@)
    }
}

/// Connections held across the whole registry.
pub open spec fn total_conns<C: ConnectionHandle>(shards: Seq<Vec<ShardEntry<C>>>) -> int {
    conns_up_to(shards, shards.len() as int)
}

/// Pools held by the shards before index `i`.
pub open spec fn pools_up_to<C: ConnectionHandle>(shards: Seq<Vec<ShardEntry<C>>>, i: int) -> int
    decreases i,
{
    if i <= 0 {
        0
    } else {
        pools_up_to(shards, i - 1) + shards[i - 1]@.len()
    }
}

/// Pools held across the whole registry.
pub open spec fn total_pools<C: ConnectionHandle>(shards: Seq<Vec<ShardEntry<C>>>) -> int {
    pools_up_to(shards, shards.len() as int)
}

/// Abstract content of a shard: each slot's endpoint and queue, in order.
pub open spec fn shard_view<C: ConnectionHandle>(s: Seq<ShardEntry<C>>) -> Seq<
    (u64, Seq<ConnPoolEntry<C>>),
> {
    s.map(|j: int, x: ShardEntry<C>| (x.endpoint, x.pool.conns@))
}

/// Connections held by an abstract shard.
pub open spec fn view_conns<C: ConnectionHandle>(v: Seq<(u64, Seq<ConnPoolEntry<C>>)>) -> int
    decreases v.len(),
{
    if v.len() == 0 {
        0
    } else {
        v[0].1.len() + view_conns(v.skip(1))
    }
}

/// One reclamation sweep over a shard. `sole[j]` says whether the registry is
/// the sole holder of the `j`-th pool: a pool with another live holder is
/// skipped, since a concurrent reuse or admission may be in flight on it. A
/// sole pool is purged of its closed entries, and its slot is evicted when
/// nothing is left. Yields the surviving shard, the number of connections
/// reaped, and the number of pools evicted.
pub open spec fn sweep_spec<C: ConnectionHandle>(
    v: Seq<(u64, Seq<ConnPoolEntry<C>>)>,
    sole: Seq<bool>,
) -> (Seq<(u64, Seq<ConnPoolEntry<C>>)>, int, int)
    decreases v.len(),
{
    if v.len() == 0 {
        (v, 0, 0)
    } else {
        let rest = sweep_spec(v.skip(1), sole.skip(1));
        if !(sole.len() > 0 && sole[0]) {
            (seq![v[0]] + rest.0, rest.1, rest.2)
        } else {
            let live = live_entries_spec(v[0].1);
            let removed = v[0].1.len() - live.len();
            if live.len() == 0 {
                (rest.0, removed + rest.1, rest.2 + 1)
            } else {
                (seq![(v[0].0, live)] + rest.0, removed + rest.1, rest.2)
            }
        }
    }
}

proof fn lemma_view_conns_nonneg<C: ConnectionHandle>(v: Seq<(u64, Seq<ConnPoolEntry<C>>)>)
    ensures
        view_conns(v) >= 0,
    decreases v.len(),
{
    if v.len() > 0 {
        lemma_view_conns_nonneg(v.skip(1));
    }
}

proof fn lemma_view_conns_eq_shard_conns<C: ConnectionHandle>(s: Seq<ShardEntry<C>>)
    ensures
        view_conns(shard_view(s)) == shard_conns(s),
    decreases s.len(),
{
    if s.len() == 0 {
    } else {
        assert(shard_view(s).skip(1) =~= shard_view(s.skip(1)));
        assert(shard_view(s)[0] == (s[0].endpoint, s[0].pool.conns@));
        lemma_view_conns_eq_shard_conns(s.skip(1));
    }
}

/// A sweep's numbers add up: it reaps exactly the connections that leave the
/// queues and evicts exactly the slots that disappear.
pub proof fn lemma_sweep_accounting<C: ConnectionHandle>(
    v: Seq<(u64, Seq<ConnPoolEntry<C>>)>,
    sole: Seq<bool>,
)
    ensures
        0 <= sweep_spec(v, sole).1,
        0 <= sweep_spec(v, sole).2,
        sweep_spec(v, sole).0.len() == v.len() - sweep_spec(v, sole).2,
        view_conns(sweep_spec(v, sole).0) == view_conns(v) - sweep_spec(v, sole).1,
    decreases v.len(),
{
    if v.len() == 0 {
    } else {
        lemma_sweep_accounting(v.skip(1), sole.skip(1));
        let rest = sweep_spec(v.skip(1), sole.skip(1));
        lemma_live_entries_props(v[0].1);
        if !(sole.len() > 0 && sole[0]) {
            let r = seq![v[0]] + rest.0;
            assert(r[0] == v[0]);
            assert(r.skip(1) =~= rest.0);
        } else {
            let live = live_entries_spec(v[0].1);
            if live.len() == 0 {
            } else {
                let r = seq![(v[0].0, live)] + rest.0;
                assert(r[0] == (v[0].0, live));
                assert(r.skip(1) =~= rest.0);
            }
        }
    }
}

/// Every slot a sweep keeps stems from a slot of the input: same endpoint,
/// its queue either untouched or purged of closed entries.
pub proof fn lemma_sweep_entries<C: ConnectionHandle>(
    v: Seq<(u64, Seq<ConnPoolEntry<C>>)>,
    sole: Seq<bool>,
)
    ensures
        forall|k: int|
            0 <= k < sweep_spec(v, sole).0.len() ==> exists|m: int|
                0 <= m < v.len() && (#[trigger] sweep_spec(v, sole).0[k]).0 == v[m].0 && (
                sweep_spec(v, sole).0[k].1 == v[m].1 || sweep_spec(v, sole).0[k].1
                    == live_entries_spec(v[m].1)),
    decreases v.len(),
{
    if v.len() == 0 {
    } else {
        lemma_sweep_entries(v.skip(1), sole.skip(1));
        let rest = sweep_spec(v.skip(1), sole.skip(1)).0;
        let out = sweep_spec(v, sole).0;
        assert forall|k: int| 0 <= k < out.len() implies exists|m: int|
            0 <= m < v.len() && (#[trigger] out[k]).0 == v[m].0 && (out[k].1 == v[m].1 || out[k].1
                == live_entries_spec(v[m].1)) by {
            let live = live_entries_spec(v[0].1);
            let kept_head = !(sole.len() > 0 && sole[0]) || live.len() > 0;
            if kept_head && k == 0 {
                assert(out[0].0 == v[0].0 && (out[0].1 == v[0].1 || out[0].1 == live_entries_spec(
                    v[0].1,
                )));
            } else {
                let k2 = if kept_head {
                    k - 1
                } else {
                    k
                };
                assert(out[k] == rest[k2]);
                let m2 = choose|m2: int|
                    0 <= m2 < v.skip(1).len() && (#[trigger] rest[k2]).0 == v.skip(1)[m2].0 && (
                    rest[k2].1 == v.skip(1)[m2].1 || rest[k2].1 == live_entries_spec(
                        v.skip(1)[m2].1,
                    ));
                assert(v.skip(1)[m2] == v[m2 + 1]);
                assert(0 <= m2 + 1 < v.len() && out[k].0 == v[m2 + 1].0 && (out[k].1 == v[m2
                    + 1].1 || out[k].1 == live_entries_spec(v[m2 + 1].1)));
            }
        }
    }
}

/// A sweep keeps the shard's endpoints distinct.
pub proof fn lemma_sweep_distinct<C: ConnectionHandle>(
    v: Seq<(u64, Seq<ConnPoolEntry<C>>)>,
    sole: Seq<bool>,
)
    requires
        forall|a: int, b: int| 0 <= a < b < v.len() ==> (#[trigger] v[a]).0 != (#[trigger] v[b]).0,
    ensures
        forall|a: int, b: int|
            0 <= a < b < sweep_spec(v, sole).0.len() ==> (#[trigger] sweep_spec(v, sole).0[a]).0
                != (#[trigger] sweep_spec(v, sole).0[b]).0,
    decreases v.len(),
{
    if v.len() == 0 {
    } else {
        assert forall|a: int, b: int| 0 <= a < b < v.skip(1).len() implies (#[trigger] v.skip(
            1,
        )[a]).0 != (#[trigger] v.skip(1)[b]).0 by {
            assert(v.skip(1)[a] == v[a + 1]);
            assert(v.skip(1)[b] == v[b + 1]);
        }
        lemma_sweep_distinct(v.skip(1), sole.skip(1));
        lemma_sweep_entries(v.skip(1), sole.skip(1));
        let rest = sweep_spec(v.skip(1), sole.skip(1)).0;
        let out = sweep_spec(v, sole).0;
        let live = live_entries_spec(v[0].1);
        let kept_head = !(sole.len() > 0 && sole[0]) || live.len() > 0;
        assert forall|a: int, b: int| 0 <= a < b < out.len() implies (#[trigger] out[a]).0 != (
        #[trigger] out[b]).0 by {
            if kept_head && a == 0 {
                assert(out[b] == rest[b - 1]);
                let m2 = choose|m2: int|
                    0 <= m2 < v.skip(1).len() && (#[trigger] rest[b - 1]).0 == v.skip(1)[m2].0 && (
                    rest[b - 1].1 == v.skip(1)[m2].1 || rest[b - 1].1 == live_entries_spec(
                        v.skip(1)[m2].1,
                    ));
                assert(v.skip(1)[m2] == v[m2 + 1]);
                assert(out[b].0 == v[m2 + 1].0);
                assert(out[a].0 == v[0].0);
            } else {
                let a2 = if kept_head {
                    a - 1
                } else {
                    a
                };
                let b2 = if kept_head {
                    b - 1
                } else {
                    b
                };
                assert(out[a] == rest[a2]);
                assert(out[b] == rest[b2]);
            }
        }
    }
}

/// Sweeping a shard in which every pool is solely owned and empty leaves no
/// slots behind: every one is evicted.
pub proof fn lemma_sweep_all_sole_empty<C: ConnectionHandle>(
    v: Seq<(u64, Seq<ConnPoolEntry<C>>)>,
    sole: Seq<bool>,
)
    requires
        sole.len() == v.len(),
        forall|k: int| 0 <= k < sole.len() ==> sole[k],
        forall|k: int| 0 <= k < v.len() ==> (#[trigger] v[k]).1.len() == 0,
    ensures
        sweep_spec(v, sole).0.len() == 0,
        sweep_spec(v, sole).2 == v.len(),
    decreases v.len(),
{
    if v.len() > 0 {
        assert(live_entries_spec(v[0].1).len() == 0);
        assert forall|k: int| 0 <= k < v.skip(1).len() implies (#[trigger] v.skip(1)[k]).1.len()
            == 0 by {
            assert(v.skip(1)[k] == v[k + 1]);
        }
        assert forall|k: int| 0 <= k < sole.skip(1).len() implies sole.skip(1)[k] by {
            assert(sole.skip(1)[k] == sole[k + 1]);
        }
        lemma_sweep_all_sole_empty(v.skip(1), sole.skip(1));
    }
}

/// A sweep evicts a solely owned pool whose queue is empty: afterwards no
/// slot of the shard names its endpoint.
pub proof fn lemma_sweep_evicts_empty<C: ConnectionHandle>(
    v: Seq<(u64, Seq<ConnPoolEntry<C>>)>,
    sole: Seq<bool>,
    k: int,
)
    requires
        sole.len() == v.len(),
        0 <= k < v.len(),
        sole[k],
        v[k].1.len() == 0,
        forall|a: int, b: int| 0 <= a < b < v.len() ==> (#[trigger] v[a]).0 != (#[trigger] v[b]).0,
    ensures
        forall|m: int|
            0 <= m < sweep_spec(v, sole).0.len() ==> (#[trigger] sweep_spec(v, sole).0[m]).0
                != v[k].0,
    decreases v.len(),
{
    let out = sweep_spec(v, sole).0;
    let rest = sweep_spec(v.skip(1), sole.skip(1)).0;
    if k == 0 {
        assert(live_entries_spec(v[0].1).len() == 0);
        assert(out == rest);
        lemma_sweep_entries(v.skip(1), sole.skip(1));
        assert forall|m: int| 0 <= m < out.len() implies (#[trigger] out[m]).0 != v[0].0 by {
            let m2 = choose|m2: int|
                0 <= m2 < v.skip(1).len() && (#[trigger] rest[m]).0 == v.skip(1)[m2].0 && (
                rest[m].1 == v.skip(1)[m2].1 || rest[m].1 == live_entries_spec(v.skip(1)[m2].1));
            assert(v.skip(1)[m2] == v[m2 + 1]);
        }
    } else {
        assert forall|a: int, b: int| 0 <= a < b < v.skip(1).len() implies (#[trigger] v.skip(
            1,
        )[a]).0 != (#[trigger] v.skip(1)[b]).0 by {
            assert(v.skip(1)[a] == v[a + 1]);
            assert(v.skip(1)[b] == v[b + 1]);
        }
        assert(v.skip(1)[k - 1] == v[k]);
        assert(sole.skip(1)[k - 1] == sole[k]);
        lemma_sweep_evicts_empty(v.skip(1), sole.skip(1), k - 1);
        let live = live_entries_spec(v[0].1);
        let kept_head = !(sole.len() > 0 && sole[0]) || live.len() > 0;
        assert forall|m: int| 0 <= m < out.len() implies (#[trigger] out[m]).0 != v[k].0 by {
            if kept_head && m == 0 {
                assert(out[0].0 == v[0].0);
            } else {
                let m2 = if kept_head {
                    m - 1
                } else {
                    m
                };
                assert(out[m] == rest[m2]);
            }
        }
    }
}

/// The creation race has a single winner: a well-formed registry holds at
/// most one slot per endpoint across all shards, so however many callers
/// admit connections for one new endpoint, one pool survives.
pub proof fn lemma_endpoint_slot_unique<C: ConnectionHandle>(
    s: GlobalConnPool<C>,
    endpoint: u64,
    i1: int,
    j1: int,
    i2: int,
    j2: int,
)
    requires
        s.wf(),
        0 <= i1 < s.num_shards(),
        0 <= j1 < s.shard_seq(i1).len(),
        s.shard_seq(i1)[j1].endpoint == endpoint,
        0 <= i2 < s.num_shards(),
        0 <= j2 < s.shard_seq(i2).len(),
        s.shard_seq(i2)[j2].endpoint == endpoint,
    ensures
        i1 == i2,
        j1 == j2,
{
    assert(s.shard_wf(i1));
    assert(s.shard_wf(i2));
    assert(i1 == shard_of_spec(endpoint, s.num_shards()));
    assert(i2 == shard_of_spec(endpoint, s.num_shards()));
}

/// In any well-formed registry state no two entries of an endpoint's pool
/// share an identity; every registry operation keeps the state well-formed.
pub proof fn lemma_identities_distinct<C: ConnectionHandle>(s: GlobalConnPool<C>, endpoint: u64)
    requires
        s.wf(),
    ensures
        distinct_ids(s.endpoint_queue(endpoint)),
{
    let i = shard_of_spec(endpoint, s.num_shards());
    assert(0 <= i < s.num_shards());
    assert(s.shard_wf(i));
    let sh = s.shard_seq(i);
    if shard_has(sh, endpoint) {
        let j = shard_find(sh, endpoint);
        assert(0 <= j < sh.len() && sh[j].endpoint == endpoint);
        assert(distinct_ids(sh[j].pool.conns@));
    }
}

/// An endpoint whose pooled handles are all closed yields no client, and the
/// reuse attempt leaves its queue empty; a later sweep that finds the pool
/// solely owned then evicts the endpoint altogether (`lemma_sweep_evicts_empty`).
pub proof fn lemma_closed_pool_reclaimed<C: ConnectionHandle>(s: GlobalConnPool<C>, endpoint: u64)
    requires
        s.wf(),
        all_closed(s.endpoint_queue(endpoint)),
    ensures
        s.get_result_spec(endpoint) == None::<Client<C>>,
        acquire_spec(s.endpoint_queue(endpoint)).0.len() == 0,
{
    lemma_acquire_all_closed(s.endpoint_queue(endpoint));
}

/// Round-robin at the registry: while every pooled handle of an endpoint is
/// open, a lookup serves the front entry and rotates it to the back, so
/// successive lookups serve the entries cyclically in insertion order
/// (`lemma_round_robin_cycle` states the whole cycle over the queue).
pub proof fn lemma_round_robin_get<C: ConnectionHandle>(s: GlobalConnPool<C>, endpoint: u64)
    requires
        s.wf(),
        all_open(s.endpoint_queue(endpoint)),
        s.endpoint_queue(endpoint).len() > 0,
    ensures
        s.get_result_spec(endpoint) == Some(
            Client {
                inner: s.endpoint_queue(endpoint)[0].conn,
                aux: s.endpoint_queue(endpoint)[0].aux,
            },
        ),
        acquire_spec(s.endpoint_queue(endpoint)).0 == s.endpoint_queue(endpoint).skip(1).push(
            s.endpoint_queue(endpoint)[0],
        ),
{
    lemma_round_robin_step(s.endpoint_queue(endpoint));
}

/// After shutdown every previously known endpoint looks up to nothing: no
/// pool is held for it, and a reuse attempt yields none.
pub proof fn lemma_get_after_shutdown<C: ConnectionHandle>(s: GlobalConnPool<C>, endpoint: u64)
    requires
        s.wf(),
        forall|i: int| 0 <= i < s.num_shards() ==> s.shard_seq(i).len() == 0,
    ensures
        !s.has_endpoint(endpoint),
        s.get_result_spec(endpoint) == None::<Client<C>>,
{
    let i = shard_of_spec(endpoint, s.num_shards());
    assert(0 <= i < s.num_shards());
    assert(s.shard_seq(i).len() == 0);
    assert(acquire_spec(s.endpoint_queue(endpoint)).1 == None::<ConnPoolEntry<C>>);
}

proof fn lemma_shard_conns_skip_unfold<C: ConnectionHandle>(s: Seq<ShardEntry<C>>, k: int)
    requires
        0 <= k < s.len(),
    ensures
        shard_conns(s.skip(k)) == s[k].pool.conns@.len() + shard_conns(s.skip(k + 1)),
{
    assert(s.skip(k)[0] == s[k]);
    assert(s.skip(k).skip(1) =~= s.skip(k + 1));
}

impl<C: ConnectionHandle> GlobalConnPool<C> {
    /// The slots of shard `i`.
    pub open spec fn shard_seq(self, i: int) -> Seq<ShardEntry<C>> {
        self.shards@[i]@
    }

    pub open spec fn num_shards(self) -> int {
        self.shards@.len() as int
    }

    pub open spec fn shard_wf(self, i: int) -> bool {
        let s = self.shard_seq(i);
        &&& distinct_endpoints(s)
        &&& forall|j: int|
            0 <= j < s.len() ==> shard_of_spec((#[trigger] s[j]).endpoint, self.num_shards()) == i
        &&& forall|j: int| 0 <= j < s.len() ==> distinct_ids((#[trigger] s[j]).pool.conns@)
    }

    /// Registry invariant: every endpoint sits in its own shard exactly once,
    /// no pool holds two entries of one identity, and the diagnostic counts
    /// never fall below the pooled totals.
    pub open spec fn wf(self) -> bool {
        &&& self.num_shards() == self.config.pool_shards
        &&& self.config.pool_shards >= 1
        &&& self.config.gc_epoch_millis >= 1
        &&& forall|i: int| 0 <= i < self.num_shards() ==> self.shard_wf(i)
        &&& total_conns(self.shards@) <= self.global_connections_count
        &&& total_pools(self.shards@) <= self.global_pool_size
    }

    /// Whether the registry holds a pool for the endpoint.
    pub open spec fn has_endpoint(self, endpoint: u64) -> bool {
        shard_has(self.shard_seq(shard_of_spec(endpoint, self.num_shards())), endpoint)
    }

    /// The endpoint's reuse queue; empty when no pool exists for it.
    pub open spec fn endpoint_queue(self, endpoint: u64) -> Seq<ConnPoolEntry<C>> {
        let s = self.shard_seq(shard_of_spec(endpoint, self.num_shards()));
        if shard_has(s, endpoint) {
            s[shard_find(s, endpoint)].pool.conns@
        } else {
            Seq::<ConnPoolEntry<C>>::empty()
        }
    }

    /// What a lookup returns: the first open entry of the endpoint's queue,
    /// wrapped as a client facade, or none.
    pub open spec fn get_result_spec(self, endpoint: u64) -> Option<Client<C>> {
        match acquire_spec(self.endpoint_queue(endpoint)).1 {
            Some(e) => Some(Client { inner: e.conn, aux: e.aux }),
            None => None,
        }
    }
}

/// A slot whose index is known pins down `shard_find`, given that no other
/// slot names the endpoint.
proof fn lemma_find_unique<C: ConnectionHandle>(s: Seq<ShardEntry<C>>, endpoint: u64, j: int)
    requires
        0 <= j < s.len(),
        s[j].endpoint == endpoint,
        forall|k: int| 0 <= k < s.len() && (#[trigger] s[k]).endpoint == endpoint ==> k == j,
    ensures
        shard_has(s, endpoint),
        shard_find(s, endpoint) == j,
{
    assert(shard_has(s, endpoint));
}

proof fn lemma_shard_conns_nonneg<C: ConnectionHandle>(s: Seq<ShardEntry<C>>)
    ensures
        shard_conns(s) >= 0,
    decreases s.len(),
{
    if s.len() > 0 {
        lemma_shard_conns_nonneg(s.skip(1));
    }
}

proof fn lemma_shard_conns_push<C: ConnectionHandle>(s: Seq<ShardEntry<C>>, x: ShardEntry<C>)
    ensures
        shard_conns(s.push(x)) == shard_conns(s) + x.pool.conns@.len(),
    decreases s.len(),
{
    if s.len() == 0 {
        assert(s.push(x)[0] == x);
        assert(s.push(x).skip(1) =~= Seq::<ShardEntry<C>>::empty());
        assert(shard_conns(Seq::<ShardEntry<C>>::empty()) == 0);
        assert(shard_conns(s) == 0);
    } else {
        assert(s.push(x).skip(1) =~= s.skip(1).push(x));
        assert(s.push(x)[0] == s[0]);
        lemma_shard_conns_push(s.skip(1), x);
    }
}

proof fn lemma_shard_conns_update<C: ConnectionHandle>(
    s: Seq<ShardEntry<C>>,
    j: int,
    x: ShardEntry<C>,
)
    requires
        0 <= j < s.len(),
    ensures
        shard_conns(s.update(j, x)) == shard_conns(s) - s[j].pool.conns@.len()
            + x.pool.conns@.len(),
    decreases j,
{
    if j == 0 {
        assert(s.update(0, x)[0] == x);
        assert(s.update(0, x).skip(1) =~= s.skip(1));
    } else {
        assert(s.update(j, x)[0] == s[0]);
        assert(s.update(j, x).skip(1) =~= s.skip(1).update(j - 1, x));
        assert(s.skip(1)[j - 1] == s[j]);
        lemma_shard_conns_update(s.skip(1), j - 1, x);
    }
}

proof fn lemma_shard_conns_entry<C: ConnectionHandle>(s: Seq<ShardEntry<C>>, j: int)
    requires
        0 <= j < s.len(),
    ensures
        shard_conns(s) >= s[j].pool.conns@.len(),
    decreases j,
{
    lemma_shard_conns_nonneg(s.skip(1));
    if j == 0 {
    } else {
        assert(s.skip(1)[j - 1] == s[j]);
        lemma_shard_conns_entry(s.skip(1), j - 1);
    }
}

proof fn lemma_conns_up_to_nonneg<C: ConnectionHandle>(shards: Seq<Vec<ShardEntry<C>>>, j: int)
    ensures
        conns_up_to(shards, j) >= 0,
    decreases j,
{
    if j > 0 {
        lemma_conns_up_to_nonneg(shards, j - 1);
        lemma_shard_conns_nonneg(shards[j - 1]@);
    }
}

proof fn lemma_conns_up_to_update<C: ConnectionHandle>(
    shards: Seq<Vec<ShardEntry<C>>>,
    i: int,
    v: Vec<ShardEntry<C>>,
    j: int,
)
    requires
        0 <= i < shards.len(),
        j <= shards.len(),
    ensures
        conns_up_to(shards.update(i, v), j) == conns_up_to(shards, j) + (if i < j {
            shard_conns(v@) - shard_conns(shards[i]@)
        } else {
            0
        }),
    decreases j,
{
    if j > 0 {
        lemma_conns_up_to_update(shards, i, v, j - 1);
        if i == j - 1 {
            assert(shards.update(i, v)[j - 1] == v);
        } else {
            assert(shards.update(i, v)[j - 1] == shards[j - 1]);
        }
    }
}

proof fn lemma_shard_le_total_conns<C: ConnectionHandle>(shards: Seq<Vec<ShardEntry<C>>>, i: int, j: int)
    requires
        0 <= i < j <= shards.len(),
    ensures
        conns_up_to(shards, j) >= shard_conns(shards[i]@),
    decreases j,
{
    if j - 1 == i {
        lemma_conns_up_to_nonneg(shards, j - 1);
    } else {
        lemma_shard_le_total_conns(shards, i, j - 1);
        lemma_shard_conns_nonneg(shards[j - 1]@);
    }
}

proof fn lemma_pools_up_to_nonneg<C: ConnectionHandle>(shards: Seq<Vec<ShardEntry<C>>>, j: int)
    ensures
        pools_up_to(shards, j) >= 0,
    decreases j,
{
    if j > 0 {
        lemma_pools_up_to_nonneg(shards, j - 1);
    }
}

proof fn lemma_pools_up_to_update<C: ConnectionHandle>(
    shards: Seq<Vec<ShardEntry<C>>>,
    i: int,
    v: Vec<ShardEntry<C>>,
    j: int,
)
    requires
        0 <= i < shards.len(),
        j <= shards.len(),
    ensures
        pools_up_to(shards.update(i, v), j) == pools_up_to(shards, j) + (if i < j {
            v@.len() - shards[i]@.len()
        } else {
            0
        }),
    decreases j,
{
    if j > 0 {
        lemma_pools_up_to_update(shards, i, v, j - 1);
        if i == j - 1 {
            assert(shards.update(i, v)[j - 1] == v);
        } else {
            assert(shards.update(i, v)[j - 1] == shards[j - 1]);
        }
    }
}

proof fn lemma_shard_le_total_pools<C: ConnectionHandle>(shards: Seq<Vec<ShardEntry<C>>>, i: int, j: int)
    requires
        0 <= i < j <= shards.len(),
    ensures
        pools_up_to(shards, j) >= shards[i]@.len(),
    decreases j,
{
    if j - 1 == i {
        lemma_pools_up_to_nonneg(shards, j - 1);
    } else {
        lemma_shard_le_total_pools(shards, i, j - 1);
    }
}

proof fn lemma_sums_all_empty<C: ConnectionHandle>(shards: Seq<Vec<ShardEntry<C>>>, j: int)
    requires
        forall|k: int| 0 <= k < shards.len() ==> (#[trigger] shards[k])@.len() == 0,
        j <= shards.len(),
    ensures
        conns_up_to(shards, j) == 0,
        pools_up_to(shards, j) == 0,
    decreases j,
{
    if j > 0 {
        lemma_sums_all_empty(shards, j - 1);
    }
}

/// Pushing a slot for another endpoint does not touch a lookup.
proof fn lemma_frame_push<C: ConnectionHandle>(s: Seq<ShardEntry<C>>, x: ShardEntry<C>, e2: u64)
    requires
        distinct_endpoints(s),
        x.endpoint != e2,
    ensures
        shard_has(s.push(x), e2) == shard_has(s, e2),
        shard_has(s, e2) ==> shard_find(s.push(x), e2) == shard_find(s, e2) && s.push(x)[shard_find(
            s.push(x),
            e2,
        )] == s[shard_find(s, e2)],
{
    let t = s.push(x);
    if shard_has(s, e2) {
        let k = shard_find(s, e2);
        assert(t[k] == s[k]);
        assert forall|m: int| 0 <= m < t.len() && (#[trigger] t[m]).endpoint == e2 implies m == k by {
            if m < s.len() {
                assert(t[m] == s[m]);
            } else {
                assert(t[m] == x);
            }
        }
        lemma_find_unique(t, e2, k);
    } else if shard_has(t, e2) {
        let m = shard_find(t, e2);
        assert(0 <= m < t.len() && t[m].endpoint == e2);
        if m < s.len() {
            assert(t[m] == s[m]);
            assert(shard_has(s, e2));
        } else {
            assert(t[m] == x);
        }
    }
}

/// Replacing the pool in a slot does not touch a lookup of another endpoint.
proof fn lemma_frame_update<C: ConnectionHandle>(
    s: Seq<ShardEntry<C>>,
    j: int,
    x: ShardEntry<C>,
    e2: u64,
)
    requires
        0 <= j < s.len(),
        distinct_endpoints(s),
        x.endpoint == s[j].endpoint,
        x.endpoint != e2,
    ensures
        shard_has(s.update(j, x), e2) == shard_has(s, e2),
        shard_has(s, e2) ==> shard_find(s.update(j, x), e2) == shard_find(s, e2) && s.update(
            j,
            x,
        )[shard_find(s.update(j, x), e2)] == s[shard_find(s, e2)],
{
    let t = s.update(j, x);
    if shard_has(s, e2) {
        let k = shard_find(s, e2);
        assert(s[k].endpoint == e2);
        assert(k != j);
        assert(t[k] == s[k]);
        assert forall|m: int| 0 <= m < t.len() && (#[trigger] t[m]).endpoint == e2 implies m == k by {
            if m == j {
                assert(t[m] == x);
            } else {
                assert(t[m] == s[m]);
            }
        }
        lemma_find_unique(t, e2, k);
    } else if shard_has(t, e2) {
        let m = shard_find(t, e2);
        assert(0 <= m < t.len() && t[m].endpoint == e2);
        if m == j {
            assert(t[m] == x);
        } else {
            assert(t[m] == s[m]);
            assert(shard_has(s, e2));
        }
    }
}

/// The shard an endpoint is filed under, as computed on the reuse paths.
pub fn shard_of(endpoint: u64, nshards: usize) -> (r: usize)
    requires
        nshards >= 1,
    ensures
        r == shard_of_spec(endpoint, nshards as int),
        r < nshards,
{
    (endpoint % (nshards as u64)) as usize
}

/// First slot of the shard naming the endpoint, if any.
fn find_in_shard<C: ConnectionHandle>(shard: &Vec<ShardEntry<C>>, endpoint: u64) -> (r: Option<
    usize,
>)
    ensures
        match r {
            Some(j) => j < shard@.len() && shard@[j as int].endpoint == endpoint,
            None => forall|k: int|
                0 <= k < shard@.len() ==> (#[trigger] shard@[k]).endpoint != endpoint,
        },
{
    let mut j: usize = 0;
    while j < shard.len()
        invariant
            j <= shard@.len(),
            forall|k: int| 0 <= k < j ==> (#[trigger] shard@[k]).endpoint != endpoint,
        decreases shard@.len() - j,
    {
        if shard[j].endpoint == endpoint {
            return Some(j);
        }
        j += 1;
    }
    None
}

impl<C: ConnectionHandle> GlobalConnPool<C> {
    /// An empty registry with the given sharding and epoch.
    pub fn new(config: PoolConfig) -> (r: Self)
        requires
            config.pool_shards >= 1,
            config.gc_epoch_millis >= 1,
        ensures
            r.wf(),
            r.config == config,
            r.global_pool_size == 0,
            r.global_connections_count == 0,
            forall|i: int| 0 <= i < r.num_shards() ==> r.shard_seq(i).len() == 0,
            forall|e: u64| !r.has_endpoint(e),
    {
        let mut shards: Vec<Vec<ShardEntry<C>>> = Vec::new();
        while shards.len() < config.pool_shards
            invariant
                shards@.len() <= config.pool_shards,
                forall|i: int| 0 <= i < shards@.len() ==> (#[trigger] shards@[i])@.len() == 0,
            decreases config.pool_shards - shards.len(),
        {
            shards.push(Vec::new());
        }
        let r = GlobalConnPool {
            shards,
            global_pool_size: 0,
            global_connections_count: 0,
            config,
        };
        proof {
            lemma_sums_all_empty(r.shards@, r.shards@.len() as int);
        }
        r
    }

    /// Tick interval of the reclamation worker: the epoch spread evenly over
    /// the shards, so a full cycle completes once per epoch.
    pub fn gc_tick_interval_millis(&self) -> (r: u64)
        requires
            self.wf(),
        ensures
            r == self.config.gc_epoch_millis as int / self.config.pool_shards as int,
    {
        self.config.gc_epoch_millis / (self.config.pool_shards as u64)
    }

    /// Locate the endpoint's pool, creating an empty one when absent. The
    /// real map insertion is conditional in the same way: a speculative pool
    /// built by a losing caller is discarded uncounted, so the pool count
    /// rises by one exactly when the endpoint was new. Returns the slot index
    /// within the endpoint's shard.
    fn get_or_create_endpoint_pool(&mut self, endpoint: u64) -> (j: usize)
        requires
            old(self).wf(),
            old(self).global_pool_size < usize::MAX,
        ensures
            final(self).wf(),
            final(self).config == old(self).config,
            final(self).num_shards() == old(self).num_shards(),
            final(self).global_connections_count == old(self).global_connections_count,
            total_conns(final(self).shards@) == total_conns(old(self).shards@),
            final(self).has_endpoint(endpoint),
            final(self).global_pool_size == old(self).global_pool_size + (if old(
                self,
            ).has_endpoint(endpoint) {
                0int
            } else {
                1int
            }),
            j == shard_find(
                final(self).shard_seq(shard_of_spec(endpoint, final(self).num_shards())),
                endpoint,
            ),
            j < final(self).shard_seq(shard_of_spec(endpoint, final(self).num_shards())).len(),
            final(self).endpoint_queue(endpoint) == old(self).endpoint_queue(endpoint),
            forall|e2: u64|
                e2 != endpoint ==> final(self).endpoint_queue(e2) == old(self).endpoint_queue(e2)
                    && final(self).has_endpoint(e2) == old(self).has_endpoint(e2),
    {
        let nshards = self.shards.len();
        let i = shard_of(endpoint, nshards);
        let ghost s0 = self.shard_seq(i as int);
        let found = find_in_shard(&self.shards[i], endpoint);
        match found {
            Some(j) => {
                proof {
                    assert forall|k: int|
                        0 <= k < s0.len() && (#[trigger] s0[k]).endpoint == endpoint implies k
                        == j as int by {
                        assert(self.shard_wf(i as int));
                    }
                    lemma_find_unique(s0, endpoint, j as int);
                }
                j
            },
            None => {
                let mut shard = self.shards.remove(i);
                let j = shard.len();
                shard.push(ShardEntry { endpoint, pool: EndpointConnPool::new() });
                let ghost s1 = shard@;
                self.shards.insert(i, shard);
                self.global_pool_size = self.global_pool_size + 1;
                proof {
                    let ii = i as int;
                    let x = s1[j as int];
                    assert(s1 == s0.push(x));
                    assert(x.endpoint == endpoint && x.pool.conns@.len() == 0);
                    let nv = self.shards@[ii];
                    assert(nv@ == s1);
                    assert(self.shards@ =~= old(self).shards@.update(ii, nv));
                    // sums: the new pool is empty, so connections are unchanged
                    // and the pool total rises by one.
                    lemma_shard_conns_push(s0, x);
                    lemma_conns_up_to_update(old(self).shards@, ii, nv, old(self).shards@.len() as int);
                    lemma_pools_up_to_update(old(self).shards@, ii, nv, old(self).shards@.len() as int);
                    // the endpoint was absent from its shard
                    assert(!shard_has(s0, endpoint));
                    // well-formedness of the grown shard
                    assert(old(self).shard_wf(ii));
                    assert forall|a: int, b: int| 0 <= a < b < s1.len() implies (
                    #[trigger] s1[a]).endpoint != (#[trigger] s1[b]).endpoint by {
                        assert(s1[a] == s0[a]);
                        if b < s0.len() {
                            assert(s1[b] == s0[b]);
                        } else {
                            assert(s1[b] == x);
                        }
                    }
                    assert forall|k: int|
                        0 <= k < s1.len() implies shard_of_spec(
                        (#[trigger] s1[k]).endpoint,
                        self.num_shards(),
                    ) == ii by {
                        if k < s0.len() {
                            assert(s1[k] == s0[k]);
                        } else {
                            assert(s1[k] == x);
                        }
                    }
                    assert forall|k: int| 0 <= k < s1.len() implies distinct_ids(
                        (#[trigger] s1[k]).pool.conns@,
                    ) by {
                        if k < s0.len() {
                            assert(s1[k] == s0[k]);
                        }
                    }
                    assert forall|i2: int|
                        0 <= i2 < self.num_shards() && i2 != ii implies self.shard_wf(i2) by {
                        assert(self.shard_seq(i2) == old(self).shard_seq(i2));
                        assert(old(self).shard_wf(i2));
                    }
                    assert(self.shard_wf(ii));
                    assert(self.wf());
                    // the new slot answers lookups for the endpoint
                    assert forall|k: int|
                        0 <= k < s1.len() && (#[trigger] s1[k]).endpoint == endpoint implies k
                        == j as int by {
                        if k < s0.len() {
                            assert(s1[k] == s0[k]);
                        }
                    }
                    lemma_find_unique(s1, endpoint, j as int);
                    assert(self.endpoint_queue(endpoint) =~= old(self).endpoint_queue(endpoint));
                    // lookups of other endpoints are untouched
                    assert forall|e2: u64| e2 != endpoint implies self.endpoint_queue(e2) == old(
                        self,
                    ).endpoint_queue(e2) && self.has_endpoint(e2) == old(self).has_endpoint(
                        e2,
                    ) by {
                        let i2 = shard_of_spec(e2, self.num_shards());
                        if i2 == ii {
                            lemma_frame_push(s0, x, e2);
                        } else {
                            assert(self.shard_seq(i2) == old(self).shard_seq(i2));
                        }
                    }
                }
                j
            },
        }
    }

    /// Admit a freshly established connection: locate or create the
    /// endpoint's pool, append the entry (sharing the handle), bump the
    /// connection count, and hand back the caller's facade. Identities are
    /// assigned uniquely at connection creation, so the entry's identity is
    /// new to the pool.
    pub fn register(&mut self, endpoint: u64, conn: C, conn_id: u128, aux: MetricsAuxInfo) -> (r:
        Client<C>)
        requires
            old(self).wf(),
            !contains_id(old(self).endpoint_queue(endpoint), conn_id),
            old(self).global_connections_count < usize::MAX,
            old(self).global_pool_size < usize::MAX,
        ensures
            final(self).wf(),
            final(self).config == old(self).config,
            final(self).num_shards() == old(self).num_shards(),
            final(self).has_endpoint(endpoint),
            final(self).endpoint_queue(endpoint) == old(self).endpoint_queue(endpoint).push(
                ConnPoolEntry { conn, conn_id, aux },
            ),
            final(self).global_connections_count == old(self).global_connections_count + 1,
            final(self).global_pool_size == old(self).global_pool_size + (if old(
                self,
            ).has_endpoint(endpoint) {
                0int
            } else {
                1int
            }),
            forall|e2: u64|
                e2 != endpoint ==> final(self).endpoint_queue(e2) == old(self).endpoint_queue(e2)
                    && final(self).has_endpoint(e2) == old(self).has_endpoint(e2),
            r.inner == conn,
            r.aux == aux,
    {
        let j = self.get_or_create_endpoint_pool(endpoint);
        let ghost mid = *self;
        let nshards = self.shards.len();
        let i = shard_of(endpoint, nshards);
        let mut shard = self.shards.remove(i);
        let mut slot = shard.remove(j);
        let pooled = ConnPoolEntry { conn: conn.share(), conn_id, aux };
        slot.pool.conns.push(pooled);
        shard.insert(j, slot);
        let ghost s1 = shard@;
        self.shards.insert(i, shard);
        self.global_connections_count = self.global_connections_count + 1;
        proof {
            let ii = i as int;
            let jj = j as int;
            let s0 = mid.shard_seq(ii);
            let x = s1[jj];
            let oldq = s0[jj].pool.conns@;
            let entry = ConnPoolEntry { conn, conn_id, aux };
            assert(s1 =~= s0.update(jj, x));
            assert(x.endpoint == endpoint);
            assert(x.pool.conns@ == oldq.push(entry));
            assert(mid.endpoint_queue(endpoint) == oldq);
            let nv = self.shards@[ii];
            assert(nv@ == s1);
            assert(self.shards@ =~= mid.shards@.update(ii, nv));
            lemma_shard_conns_update(s0, jj, x);
            lemma_conns_up_to_update(mid.shards@, ii, nv, mid.shards@.len() as int);
            lemma_pools_up_to_update(mid.shards@, ii, nv, mid.shards@.len() as int);
            assert(mid.shard_wf(ii));
            assert forall|k: int| 0 <= k < s1.len() implies (#[trigger] s1[k]).endpoint
                == s0[k].endpoint by {
                if k != jj {
                    assert(s1[k] == s0[k]);
                }
            }
            assert forall|k: int| 0 <= k < s1.len() implies distinct_ids(
                (#[trigger] s1[k]).pool.conns@,
            ) by {
                if k != jj {
                    assert(s1[k] == s0[k]);
                } else {
                    let nq = oldq.push(entry);
                    assert forall|a: int, b: int| 0 <= a < b < nq.len() implies (
                    #[trigger] nq[a]).conn_id != (#[trigger] nq[b]).conn_id by {
                        assert(nq[a] == oldq[a]);
                        if b < oldq.len() {
                            assert(nq[b] == oldq[b]);
                        } else {
                            assert(nq[b] == entry);
                        }
                    }
                }
            }
            assert forall|i2: int|
                0 <= i2 < self.num_shards() && i2 != ii implies self.shard_wf(i2) by {
                assert(self.shard_seq(i2) == mid.shard_seq(i2));
                assert(mid.shard_wf(i2));
            }
            assert(self.shard_wf(ii));
            assert(self.wf());
            assert forall|k: int|
                0 <= k < s1.len() && (#[trigger] s1[k]).endpoint == endpoint implies k == jj by {
                if k != jj {
                    assert(s0[k].endpoint == s1[k].endpoint);
                }
            }
            lemma_find_unique(s1, endpoint, jj);
            assert(self.endpoint_queue(endpoint) == oldq.push(entry));
            assert forall|e2: u64|
                e2 != endpoint implies self.endpoint_queue(e2) == mid.endpoint_queue(e2)
                    && self.has_endpoint(e2) == mid.has_endpoint(e2) by {
                let i2 = shard_of_spec(e2, self.num_shards());
                if i2 == ii {
                    lemma_frame_update(s0, jj, x, e2);
                } else {
                    assert(self.shard_seq(i2) == mid.shard_seq(i2));
                }
            }
        }
        Client::new(conn, aux)
    }

    /// Look up a reusable handle for the endpoint. Locates or creates the
    /// pool (a miss still leaves an empty pool behind), runs one round-robin
    /// reuse attempt on its queue, and wraps a hit as a client facade. The
    /// connection count is untouched even when closed entries are dropped on
    /// the way: the next removal or sweep reconciles it.
    pub fn get(&mut self, endpoint: u64) -> (r: Option<Client<C>>)
        requires
            old(self).wf(),
            old(self).global_pool_size < usize::MAX,
        ensures
            final(self).wf(),
            final(self).config == old(self).config,
            final(self).num_shards() == old(self).num_shards(),
            r == old(self).get_result_spec(endpoint),
            final(self).has_endpoint(endpoint),
            final(self).endpoint_queue(endpoint) == acquire_spec(
                old(self).endpoint_queue(endpoint),
            ).0,
            final(self).global_connections_count == old(self).global_connections_count,
            final(self).global_pool_size == old(self).global_pool_size + (if old(
                self,
            ).has_endpoint(endpoint) {
                0int
            } else {
                1int
            }),
            forall|e2: u64|
                e2 != endpoint ==> final(self).endpoint_queue(e2) == old(self).endpoint_queue(e2)
                    && final(self).has_endpoint(e2) == old(self).has_endpoint(e2),
    {
        let j = self.get_or_create_endpoint_pool(endpoint);
        let ghost mid = *self;
        let nshards = self.shards.len();
        let i = shard_of(endpoint, nshards);
        let mut shard = self.shards.remove(i);
        let mut slot = shard.remove(j);
        let got = slot.pool.get_conn_entry();
        shard.insert(j, slot);
        let ghost s1 = shard@;
        self.shards.insert(i, shard);
        proof {
            let ii = i as int;
            let jj = j as int;
            let s0 = mid.shard_seq(ii);
            let x = s1[jj];
            let oldq = s0[jj].pool.conns@;
            assert(s1 =~= s0.update(jj, x));
            assert(x.endpoint == endpoint);
            assert(x.pool.conns@ == acquire_spec(oldq).0);
            assert(mid.endpoint_queue(endpoint) == oldq);
            assert(distinct_ids(oldq)) by {
                assert(mid.shard_wf(ii));
            }
            lemma_acquire_props(oldq);
            let nv = self.shards@[ii];
            assert(nv@ == s1);
            assert(self.shards@ =~= mid.shards@.update(ii, nv));
            lemma_shard_conns_update(s0, jj, x);
            lemma_conns_up_to_update(mid.shards@, ii, nv, mid.shards@.len() as int);
            lemma_pools_up_to_update(mid.shards@, ii, nv, mid.shards@.len() as int);
            assert(mid.shard_wf(ii));
            assert forall|k: int| 0 <= k < s1.len() implies (#[trigger] s1[k]).endpoint
                == s0[k].endpoint by {
                if k != jj {
                    assert(s1[k] == s0[k]);
                }
            }
            assert forall|k: int| 0 <= k < s1.len() implies distinct_ids(
                (#[trigger] s1[k]).pool.conns@,
            ) by {
                if k != jj {
                    assert(s1[k] == s0[k]);
                }
            }
            assert forall|i2: int|
                0 <= i2 < self.num_shards() && i2 != ii implies self.shard_wf(i2) by {
                assert(self.shard_seq(i2) == mid.shard_seq(i2));
                assert(mid.shard_wf(i2));
            }
            assert(self.shard_wf(ii));
            assert(self.wf());
            assert forall|k: int|
                0 <= k < s1.len() && (#[trigger] s1[k]).endpoint == endpoint implies k == jj by {
                if k != jj {
                    assert(s0[k].endpoint == s1[k].endpoint);
                }
            }
            lemma_find_unique(s1, endpoint, jj);
            assert(self.endpoint_queue(endpoint) == acquire_spec(oldq).0);
            assert forall|e2: u64|
                e2 != endpoint implies self.endpoint_queue(e2) == mid.endpoint_queue(e2)
                    && self.has_endpoint(e2) == mid.has_endpoint(e2) by {
                let i2 = shard_of_spec(e2, self.num_shards());
                if i2 == ii {
                    lemma_frame_update(s0, jj, x, e2);
                } else {
                    assert(self.shard_seq(i2) == mid.shard_seq(i2));
                }
            }
        }
        match got {
            Some(e) => Some(Client::new(e.conn, e.aux)),
            None => None,
        }
    }

    /// Delete the entries carrying the identity from the endpoint's pool, as
    /// the lifecycle supervisor does once the transport ends. A lookup that
    /// misses — the pool was evicted, or shut down, or never existed — is a
    /// silent no-op, and so is a second removal of the same identity.
    pub fn remove_conn(&mut self, endpoint: u64, conn_id: u128) -> (removed: bool)
        requires
            old(self).wf(),
        ensures
            final(self).wf(),
            final(self).config == old(self).config,
            final(self).num_shards() == old(self).num_shards(),
            final(self).has_endpoint(endpoint) == old(self).has_endpoint(endpoint),
            final(self).endpoint_queue(endpoint) == remove_id_spec(
                old(self).endpoint_queue(endpoint),
                conn_id,
            ),
            removed == (final(self).endpoint_queue(endpoint).len() < old(self).endpoint_queue(
                endpoint,
            ).len()),
            final(self).global_connections_count == old(self).global_connections_count - (old(
                self,
            ).endpoint_queue(endpoint).len() - final(self).endpoint_queue(endpoint).len()),
            final(self).global_pool_size == old(self).global_pool_size,
            forall|e2: u64|
                e2 != endpoint ==> final(self).endpoint_queue(e2) == old(self).endpoint_queue(e2)
                    && final(self).has_endpoint(e2) == old(self).has_endpoint(e2),
    {
        let nshards = self.shards.len();
        let i = shard_of(endpoint, nshards);
        let ghost s0 = self.shard_seq(i as int);
        let found = find_in_shard(&self.shards[i], endpoint);
        match found {
            None => {
                proof {
                    assert(!shard_has(s0, endpoint));
                    assert(remove_id_spec(Seq::<ConnPoolEntry<C>>::empty(), conn_id)
                        =~= Seq::<ConnPoolEntry<C>>::empty());
                }
                false
            },
            Some(j) => {
                let ghost mid = *self;
                proof {
                    let ii = i as int;
                    let jj = j as int;
                    assert(mid.shard_wf(ii));
                    assert forall|k: int|
                        0 <= k < s0.len() && (#[trigger] s0[k]).endpoint == endpoint implies k
                        == jj by {}
                    lemma_find_unique(s0, endpoint, jj);
                    lemma_shard_conns_entry(s0, jj);
                    lemma_shard_le_total_conns(mid.shards@, ii, mid.shards@.len() as int);
                }
                let mut shard = self.shards.remove(i);
                let mut slot = shard.remove(j);
                let r = slot.pool.remove_conn(conn_id, &mut self.global_connections_count);
                shard.insert(j, slot);
                let ghost s1 = shard@;
                self.shards.insert(i, shard);
                proof {
                    let ii = i as int;
                    let jj = j as int;
                    let x = s1[jj];
                    let oldq = s0[jj].pool.conns@;
                    assert(s1 =~= s0.update(jj, x));
                    assert(x.endpoint == endpoint);
                    assert(x.pool.conns@ == remove_id_spec(oldq, conn_id));
                    assert(mid.endpoint_queue(endpoint) == oldq);
                    lemma_remove_id_props(oldq, conn_id);
                    let nv = self.shards@[ii];
                    assert(nv@ == s1);
                    assert(self.shards@ =~= mid.shards@.update(ii, nv));
                    lemma_shard_conns_update(s0, jj, x);
                    lemma_conns_up_to_update(mid.shards@, ii, nv, mid.shards@.len() as int);
                    lemma_pools_up_to_update(mid.shards@, ii, nv, mid.shards@.len() as int);
                    assert forall|k: int| 0 <= k < s1.len() implies (#[trigger] s1[k]).endpoint
                        == s0[k].endpoint by {
                        if k != jj {
                            assert(s1[k] == s0[k]);
                        }
                    }
                    assert forall|k: int| 0 <= k < s1.len() implies distinct_ids(
                        (#[trigger] s1[k]).pool.conns@,
                    ) by {
                        if k != jj {
                            assert(s1[k] == s0[k]);
                        }
                    }
                    assert forall|i2: int|
                        0 <= i2 < self.num_shards() && i2 != ii implies self.shard_wf(i2) by {
                        assert(self.shard_seq(i2) == mid.shard_seq(i2));
                        assert(mid.shard_wf(i2));
                    }
                    assert(self.shard_wf(ii));
                    assert(self.wf());
                    assert forall|k: int|
                        0 <= k < s1.len() && (#[trigger] s1[k]).endpoint == endpoint implies k
                        == jj by {
                        if k != jj {
                            assert(s0[k].endpoint == s1[k].endpoint);
                        }
                    }
                    lemma_find_unique(s1, endpoint, jj);
                    assert(self.endpoint_queue(endpoint) == remove_id_spec(oldq, conn_id));
                    assert forall|e2: u64|
                        e2 != endpoint implies self.endpoint_queue(e2) == mid.endpoint_queue(e2)
                            && self.has_endpoint(e2) == mid.has_endpoint(e2) by {
                        let i2 = shard_of_spec(e2, self.num_shards());
                        if i2 == ii {
                            lemma_frame_update(s0, jj, x, e2);
                        } else {
                            assert(self.shard_seq(i2) == mid.shard_seq(i2));
                        }
                    }
                }
                r
            },
        }
    }

    /// One reclamation pass over one shard, held exclusively for its
    /// duration. `sole[j]` reports whether the registry is the sole live
    /// holder of the `j`-th pool of that shard — in the running system the
    /// test on the shared reference count; here an input, so the sweep is
    /// verified for every answer that test may give. The reaped totals are
    /// subtracted from the diagnostic counts and returned as deltas for the
    /// metrics facade; the caller logs only non-zero ones.
    pub fn gc(&mut self, shard_idx: usize, sole: &Vec<bool>) -> (r: SweepOutcome)
        requires
            old(self).wf(),
            shard_idx < old(self).num_shards(),
            sole@.len() == old(self).shard_seq(shard_idx as int).len(),
        ensures
            final(self).wf(),
            final(self).config == old(self).config,
            final(self).num_shards() == old(self).num_shards(),
            shard_view(final(self).shard_seq(shard_idx as int)) == sweep_spec(
                shard_view(old(self).shard_seq(shard_idx as int)),
                sole@,
            ).0,
            r.clients_removed == sweep_spec(
                shard_view(old(self).shard_seq(shard_idx as int)),
                sole@,
            ).1,
            r.pools_removed == sweep_spec(
                shard_view(old(self).shard_seq(shard_idx as int)),
                sole@,
            ).2,
            final(self).global_connections_count == old(self).global_connections_count
                - r.clients_removed,
            final(self).global_pool_size == old(self).global_pool_size - r.pools_removed,
            forall|i2: int|
                0 <= i2 < final(self).num_shards() && i2 != shard_idx ==> final(self).shard_seq(i2)
                    == old(self).shard_seq(i2),
    {
        let ghost orig = *self;
        let ghost ii = shard_idx as int;
        proof {
            lemma_view_conns_eq_shard_conns(orig.shard_seq(ii));
            lemma_shard_le_total_conns(orig.shards@, ii, orig.shards@.len() as int);
            lemma_shard_le_total_pools(orig.shards@, ii, orig.shards@.len() as int);
        }
        let mut work = self.shards.remove(shard_idx);
        let n0 = work.len();
        let ghost w0 = work@;
        let ghost v0 = shard_view(w0);
        let mut kept: Vec<ShardEntry<C>> = Vec::new();
        let mut clients_removed: usize = 0;
        let mut pools_removed: usize = 0;
        let mut j: usize = 0;
        proof {
            assert(sole@.skip(0) =~= sole@);
            assert(shard_view(kept@) =~= Seq::<(u64, Seq<ConnPoolEntry<C>>)>::empty());
            assert(shard_view(kept@) + sweep_spec(shard_view(work@), sole@.skip(0)).0
                =~= sweep_spec(v0, sole@).0);
        }
        while work.len() > 0
            invariant
                sole@.len() == w0.len(),
                w0.len() == n0,
                j + work@.len() == n0,
                sweep_spec(v0, sole@).0 == shard_view(kept@) + sweep_spec(
                    shard_view(work@),
                    sole@.skip(j as int),
                ).0,
                sweep_spec(v0, sole@).1 == clients_removed + sweep_spec(
                    shard_view(work@),
                    sole@.skip(j as int),
                ).1,
                sweep_spec(v0, sole@).2 == pools_removed + sweep_spec(
                    shard_view(work@),
                    sole@.skip(j as int),
                ).2,
                clients_removed + view_conns(shard_view(work@)) <= view_conns(v0),
                pools_removed + work@.len() <= n0,
                view_conns(v0) <= old(self).global_connections_count,
                old(self).global_connections_count == self.global_connections_count,
            decreases work@.len(),
        {
            let ghost wpre = work@;
            let ghost solej = sole@.skip(j as int);
            let mut entry = work.remove(0);
            proof {
                assert(work@ =~= wpre.skip(1));
                assert(shard_view(wpre).skip(1) =~= shard_view(wpre.skip(1)));
                assert(solej.skip(1) =~= sole@.skip(j as int + 1));
                assert(shard_view(wpre)[0] == (entry.endpoint, entry.pool.conns@));
                assert(solej[0] == sole@[j as int]);
                assert(solej.len() > 0);
                lemma_view_conns_nonneg(shard_view(work@));
                lemma_view_conns_nonneg(v0);
            }
            let ghost kpre = kept@;
            if sole[j] {
                let n = entry.pool.purge_closed();
                clients_removed = clients_removed + n;
                if entry.pool.conns.len() == 0 {
                    pools_removed = pools_removed + 1;
                    proof {
                        assert(shard_view(kept@) + sweep_spec(shard_view(work@), solej.skip(1)).0
                            =~= shard_view(kpre) + (sweep_spec(
                            shard_view(work@),
                            solej.skip(1),
                        ).0));
                    }
                } else {
                    kept.push(entry);
                    proof {
                        let h = (entry.endpoint, entry.pool.conns@);
                        assert(shard_view(kept@) =~= shard_view(kpre).push(h));
                        assert(shard_view(kpre).push(h) + sweep_spec(
                            shard_view(work@),
                            solej.skip(1),
                        ).0 =~= shard_view(kpre) + (seq![h] + sweep_spec(
                            shard_view(work@),
                            solej.skip(1),
                        ).0));
                    }
                }
            } else {
                kept.push(entry);
                proof {
                    let h = shard_view(wpre)[0];
                    assert(shard_view(kept@) =~= shard_view(kpre).push(h));
                    assert(shard_view(kpre).push(h) + sweep_spec(
                        shard_view(work@),
                        solej.skip(1),
                    ).0 =~= shard_view(kpre) + (seq![h] + sweep_spec(
                        shard_view(work@),
                        solej.skip(1),
                    ).0));
                }
            }
            j = j + 1;
        }
        proof {
            assert(shard_view(work@) =~= Seq::<(u64, Seq<ConnPoolEntry<C>>)>::empty());
            assert(sweep_spec(shard_view(work@), sole@.skip(j as int)).0.len() == 0);
            assert(sweep_spec(v0, sole@).0 =~= shard_view(kept@));
            lemma_view_conns_nonneg(shard_view(kept@));
        }
        let ghost s1 = kept@;
        self.shards.insert(shard_idx, kept);
        proof {
            lemma_sweep_accounting(v0, sole@);
            lemma_view_conns_eq_shard_conns(s1);
        }
        self.global_connections_count = self.global_connections_count - clients_removed;
        self.global_pool_size = self.global_pool_size - pools_removed;
        proof {
            let nv = self.shards@[ii];
            assert(nv@ == s1);
            assert(self.shards@ =~= orig.shards@.update(ii, nv));
            lemma_conns_up_to_update(orig.shards@, ii, nv, orig.shards@.len() as int);
            lemma_pools_up_to_update(orig.shards@, ii, nv, orig.shards@.len() as int);
            // well-formedness of the swept shard
            let s0 = orig.shard_seq(ii);
            assert(orig.shard_wf(ii));
            assert forall|a: int, b: int| 0 <= a < b < v0.len() implies (#[trigger] v0[a]).0 != (
            #[trigger] v0[b]).0 by {
                assert(v0[a].0 == s0[a].endpoint);
                assert(v0[b].0 == s0[b].endpoint);
            }
            lemma_sweep_distinct(v0, sole@);
            lemma_sweep_entries(v0, sole@);
            let sv1 = shard_view(s1);
            assert forall|a: int, b: int| 0 <= a < b < s1.len() implies (#[trigger] s1[a]).endpoint
                != (#[trigger] s1[b]).endpoint by {
                assert(sv1[a].0 == s1[a].endpoint);
                assert(sv1[b].0 == s1[b].endpoint);
            }
            assert forall|k: int|
                0 <= k < s1.len() implies shard_of_spec(
                (#[trigger] s1[k]).endpoint,
                self.num_shards(),
            ) == ii && distinct_ids(s1[k].pool.conns@) by {
                assert(sv1[k] == (s1[k].endpoint, s1[k].pool.conns@));
                let m = choose|m: int|
                    0 <= m < v0.len() && (#[trigger] sv1[k]).0 == v0[m].0 && (sv1[k].1 == v0[m].1
                        || sv1[k].1 == live_entries_spec(v0[m].1));
                assert(v0[m] == (s0[m].endpoint, s0[m].pool.conns@));
                assert(distinct_ids(s0[m].pool.conns@));
                lemma_live_entries_props(s0[m].pool.conns@);
            }
            assert forall|i2: int|
                0 <= i2 < self.num_shards() && i2 != ii implies self.shard_wf(i2) by {
                assert(self.shard_seq(i2) == orig.shard_seq(i2));
                assert(orig.shard_wf(i2));
            }
            assert(self.shard_wf(ii));
            assert(self.wf());
        }
        SweepOutcome { clients_removed, pools_removed }
    }

    /// Shut the registry down: clear every slot of every shard. Each cleared
    /// pool's remaining connections are subtracted from the connection count
    /// exactly once — the teardown accounting that explicit removal never ran
    /// for. The diagnostic pool count is left as it stands (only sweeps lower
    /// it), and removals arriving for the cleared endpoints afterwards fall
    /// back to silent no-ops.
    pub fn shutdown(&mut self)
        requires
            old(self).wf(),
        ensures
            final(self).wf(),
            final(self).config == old(self).config,
            final(self).num_shards() == old(self).num_shards(),
            forall|i: int| 0 <= i < final(self).num_shards() ==> final(self).shard_seq(i).len() == 0,
            forall|e: u64| !final(self).has_endpoint(e),
            final(self).global_connections_count == old(self).global_connections_count
                - total_conns(old(self).shards@),
            final(self).global_pool_size == old(self).global_pool_size,
    {
        let n = self.shards.len();
        let mut i: usize = 0;
        while i < n
            invariant
                self.shards@.len() == n,
                n == old(self).num_shards(),
                i <= n,
                self.config == old(self).config,
                self.global_pool_size == old(self).global_pool_size,
                forall|k: int| 0 <= k < i ==> (#[trigger] self.shards@[k])@.len() == 0,
                forall|k: int| i <= k < n ==> (#[trigger] self.shards@[k]) == old(self).shards@[k],
                self.global_connections_count - total_conns(self.shards@) == old(
                    self,
                ).global_connections_count - total_conns(old(self).shards@),
                total_conns(self.shards@) <= self.global_connections_count,
            decreases n - i,
        {
            let ghost pre = self.shards@;
            proof {
                lemma_shard_le_total_conns(pre, i as int, pre.len() as int);
            }
            let shard = self.shards.remove(i);
            let mut freed: usize = 0;
            let mut k: usize = 0;
            proof {
                assert(shard@.skip(0) =~= shard@);
            }
            while k < shard.len()
                invariant
                    k <= shard@.len(),
                    freed + shard_conns(shard@.skip(k as int)) == shard_conns(shard@),
                    shard_conns(shard@) <= self.global_connections_count,
                decreases shard@.len() - k,
            {
                proof {
                    lemma_shard_conns_skip_unfold(shard@, k as int);
                    lemma_shard_conns_nonneg(shard@.skip(k as int + 1));
                }
                freed = freed + shard[k].pool.conns.len();
                k = k + 1;
            }
            proof {
                assert(shard@.skip(shard@.len() as int) =~= Seq::<ShardEntry<C>>::empty());
                assert(shard_conns(Seq::<ShardEntry<C>>::empty()) == 0);
                assert(freed == shard_conns(shard@));
            }
            self.global_connections_count = self.global_connections_count - freed;
            self.shards.insert(i, Vec::new());
            proof {
                let nv = self.shards@[i as int];
                assert(self.shards@ =~= pre.update(i as int, nv));
                assert(nv@ =~= Seq::<ShardEntry<C>>::empty());
                assert(shard_conns(nv@) == 0);
                lemma_conns_up_to_update(pre, i as int, nv, pre.len() as int);
            }
            i = i + 1;
        }
        proof {
            lemma_sums_all_empty(self.shards@, self.shards@.len() as int);
            assert forall|e: u64| !self.has_endpoint(e) by {
                let i2 = shard_of_spec(e, self.num_shards());
                assert(0 <= i2 < self.num_shards());
                assert(self.shard_seq(i2).len() == 0);
            }
            lemma_pools_up_to_nonneg(self.shards@, self.shards@.len() as int);
            assert(self.wf());
        }
    }
}

} // verus!
