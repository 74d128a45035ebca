use http_conn_pool::entry::{Client, ConnPoolEntry, Ids, MetricsAuxInfo};
use http_conn_pool::handle::FixedHandle;
use http_conn_pool::pool::EndpointConnPool;
use http_conn_pool::registry::{GlobalConnPool, PoolConfig};

fn aux(endpoint_id: u64) -> MetricsAuxInfo {
    MetricsAuxInfo { endpoint_id, branch_id: endpoint_id + 1000, cold_start: true }
}

fn open_conn(pid: i32) -> FixedHandle {
    FixedHandle::new(false, pid)
}

fn closed_conn(pid: i32) -> FixedHandle {
    FixedHandle::new(true, pid)
}

fn entry(closed: bool, conn_id: u128, pid: i32) -> ConnPoolEntry<FixedHandle> {
    ConnPoolEntry { conn: FixedHandle::new(closed, pid), conn_id, aux: aux(1) }
}

fn registry(shards: usize) -> GlobalConnPool<FixedHandle> {
    GlobalConnPool::new(PoolConfig { pool_shards: shards, gc_epoch_millis: 1000 })
}

fn slots(r: &GlobalConnPool<FixedHandle>) -> usize {
    r.shards.iter().map(|s| s.len()).sum()
}

#[test]
fn round_robin_serves_cyclically() {
    let mut r = registry(4);
    let e: u64 = 7;
    r.register(e, open_conn(1), 101, aux(e));
    r.register(e, open_conn(2), 102, aux(e));
    r.register(e, open_conn(3), 103, aux(e));
    let mut served = Vec::new();
    for _ in 0..6 {
        let c = r.get(e).expect("an open entry must be served");
        served.push(c.inner.pid);
    }
    assert_eq!(served, vec![1, 2, 3, 1, 2, 3]);
}

#[test]
fn reuse_hit_never_shrinks_the_queue() {
    let mut r = registry(2);
    let e: u64 = 9;
    r.register(e, open_conn(1), 1, aux(e));
    r.register(e, open_conn(2), 2, aux(e));
    assert!(r.get(e).is_some());
    let i = (e % 2) as usize;
    assert_eq!(r.shards[i][0].pool.conns.len(), 2);
}

#[test]
fn closed_entry_dropped_not_requeued() {
    // register c1, c2, c3; c2's transport is terminated. The pass that
    // encounters c2 drops it silently and serves c3, requeuing it at the
    // back; round-robin then comes back to c1. No identity ever appears
    // twice in the queue.
    let mut pool: EndpointConnPool<FixedHandle> = EndpointConnPool::new();
    pool.conns.push(entry(false, 1, 1));
    pool.conns.push(entry(true, 2, 2));
    pool.conns.push(entry(false, 3, 3));
    let a = pool.get_conn_entry().expect("c1 is open");
    let b = pool.get_conn_entry().expect("c3 is open");
    let c = pool.get_conn_entry().expect("c1 comes round again");
    assert_eq!((a.conn_id, b.conn_id, c.conn_id), (1, 3, 1));
    let ids: Vec<u128> = pool.conns.iter().map(|x| x.conn_id).collect();
    assert_eq!(ids, vec![3, 1], "c2 was dropped, not requeued");
}

#[test]
fn acquire_on_only_closed_handles_returns_none() {
    let mut r = registry(4);
    let e: u64 = 21;
    r.register(e, closed_conn(1), 1, aux(e));
    r.register(e, closed_conn(2), 2, aux(e));
    assert!(r.get(e).is_none());
    let i = (e % 4) as usize;
    assert_eq!(r.shards[i][0].pool.conns.len(), 0, "closed entries are discarded");
}

#[test]
fn sweep_evicts_pool_emptied_by_reuse() {
    let mut r = registry(4);
    let e: u64 = 21;
    r.register(e, closed_conn(1), 1, aux(e));
    assert!(r.get(e).is_none());
    let i = (e % 4) as usize;
    let sole = vec![true; r.shards[i].len()];
    let outcome = r.gc(i, &sole);
    assert_eq!(outcome.pools_removed, 1);
    assert_eq!(slots(&r), 0);
}

#[test]
fn sweep_reaps_closed_entries_of_sole_pools() {
    let mut r = registry(1);
    let e: u64 = 5;
    r.register(e, closed_conn(1), 1, aux(e));
    r.register(e, open_conn(2), 2, aux(e));
    let sole = vec![true; r.shards[0].len()];
    let outcome = r.gc(0, &sole);
    assert_eq!(outcome.clients_removed, 1);
    assert_eq!(outcome.pools_removed, 0);
    assert_eq!(r.shards[0][0].pool.conns.len(), 1);
    assert_eq!(r.global_connections_count, 1);
}

#[test]
fn sweep_skips_pools_with_other_holders() {
    let mut r = registry(1);
    let e: u64 = 5;
    r.register(e, closed_conn(1), 1, aux(e));
    let sole = vec![false; r.shards[0].len()];
    let outcome = r.gc(0, &sole);
    assert_eq!(outcome.clients_removed, 0);
    assert_eq!(outcome.pools_removed, 0);
    assert_eq!(r.shards[0][0].pool.conns.len(), 1);
}

#[test]
fn sweep_of_sole_empty_pools_clears_the_shard() {
    let mut r = registry(1);
    // lookups for unknown endpoints leave empty pools behind
    assert!(r.get(11).is_none());
    assert!(r.get(12).is_none());
    assert!(r.get(13).is_none());
    assert_eq!(r.global_pool_size, 3);
    let sole = vec![true; r.shards[0].len()];
    let outcome = r.gc(0, &sole);
    assert_eq!(outcome.pools_removed, 3);
    assert_eq!(slots(&r), 0);
    assert_eq!(r.global_pool_size, 0);
}

#[test]
fn remove_conn_is_idempotent() {
    let mut r = registry(4);
    let e: u64 = 3;
    r.register(e, open_conn(1), 42, aux(e));
    r.register(e, open_conn(2), 43, aux(e));
    assert_eq!(r.global_connections_count, 2);
    assert!(r.remove_conn(e, 42));
    assert_eq!(r.global_connections_count, 1);
    let pools_before = r.global_pool_size;
    assert!(!r.remove_conn(e, 42), "second removal reports nothing removed");
    assert_eq!(r.global_connections_count, 1, "counters are left unchanged");
    assert_eq!(r.global_pool_size, pools_before);
}

#[test]
fn remove_conn_on_unknown_endpoint_is_a_noop() {
    let mut r = registry(4);
    assert!(!r.remove_conn(99, 1));
    assert_eq!(r.global_connections_count, 0);
}

#[test]
fn one_pool_survives_repeated_registration() {
    let mut r = registry(8);
    let e: u64 = 77;
    let before = r.global_pool_size;
    r.register(e, open_conn(1), 1, aux(e));
    r.register(e, open_conn(2), 2, aux(e));
    r.register(e, open_conn(3), 3, aux(e));
    assert_eq!(r.global_pool_size, before + 1, "pool count rises exactly once");
    assert_eq!(slots(&r), 1, "exactly one slot survives for the endpoint");
}

#[test]
fn identities_stay_distinct_within_a_pool() {
    let mut r = registry(2);
    let e: u64 = 4;
    r.register(e, open_conn(1), 1, aux(e));
    r.register(e, open_conn(2), 2, aux(e));
    r.register(e, open_conn(3), 3, aux(e));
    assert!(r.get(e).is_some());
    assert!(r.remove_conn(e, 2));
    let i = (e % 2) as usize;
    let ids: Vec<u128> = r.shards[i][0].pool.conns.iter().map(|x| x.conn_id).collect();
    let mut deduped = ids.clone();
    deduped.sort_unstable();
    deduped.dedup();
    assert_eq!(deduped.len(), ids.len(), "no two entries share an identity");
}

#[test]
fn shutdown_clears_every_endpoint() {
    let mut r = registry(4);
    r.register(1, open_conn(1), 1, aux(1));
    r.register(2, open_conn(2), 2, aux(2));
    r.register(3, open_conn(3), 3, aux(3));
    r.shutdown();
    assert_eq!(slots(&r), 0);
    assert!(r.get(1).is_none());
    assert!(r.get(2).is_none());
    assert!(r.get(3).is_none());
}

#[test]
fn shutdown_accounts_remaining_connections_once() {
    let mut r = registry(4);
    r.register(1, open_conn(1), 1, aux(1));
    r.register(1, open_conn(2), 2, aux(1));
    r.register(2, open_conn(3), 3, aux(2));
    assert_eq!(r.global_connections_count, 3);
    r.shutdown();
    assert_eq!(r.global_connections_count, 0);
}

#[test]
fn reuse_path_leaves_counter_for_later_reconciliation() {
    // a closed entry dropped by reuse does not touch the shared counter;
    // explicit removal afterwards matches nothing and leaves it as well
    let mut r = registry(4);
    let e: u64 = 6;
    r.register(e, closed_conn(1), 1, aux(e));
    assert_eq!(r.global_connections_count, 1);
    assert!(r.get(e).is_none());
    assert_eq!(r.global_connections_count, 1);
    assert!(!r.remove_conn(e, 1));
    assert_eq!(r.global_connections_count, 1);
}

#[test]
fn lookup_on_unknown_endpoint_creates_an_empty_pool() {
    let mut r = registry(4);
    assert!(r.get(30).is_none());
    assert_eq!(r.global_pool_size, 1);
    assert_eq!(slots(&r), 1);
    assert_eq!(r.global_connections_count, 0);
}

#[test]
fn gc_tick_interval_spreads_the_epoch() {
    let r: GlobalConnPool<FixedHandle> =
        GlobalConnPool::new(PoolConfig { pool_shards: 4, gc_epoch_millis: 1000 });
    assert_eq!(r.gc_tick_interval_millis(), 250);
}

#[test]
fn client_forwards_its_usage_identity() {
    let c = Client::new(
        open_conn(1),
        MetricsAuxInfo { endpoint_id: 17, branch_id: 99, cold_start: false },
    );
    assert_eq!(c.metrics(), Ids { endpoint_id: 17, branch_id: 99 });
}

#[test]
fn registered_client_carries_the_metadata() {
    let mut r = registry(4);
    let a = MetricsAuxInfo { endpoint_id: 8, branch_id: 9, cold_start: true };
    let c = r.register(5, open_conn(4), 50, a);
    assert_eq!(c.inner.pid, 4);
    assert_eq!(c.metrics(), Ids { endpoint_id: 8, branch_id: 9 });
    let served = r.get(5).expect("the registered connection is reusable");
    assert_eq!(served.inner.pid, 4);
    assert_eq!(served.metrics(), Ids { endpoint_id: 8, branch_id: 9 });
}

#[test]
fn endpoints_are_filed_in_their_own_shards() {
    let mut r = registry(4);
    r.register(0, open_conn(1), 1, aux(0));
    r.register(5, open_conn(2), 2, aux(5));
    assert_eq!(r.shards[0].len(), 1);
    assert_eq!(r.shards[1].len(), 1);
    assert_eq!(r.shards[0][0].endpoint, 0);
    assert_eq!(r.shards[1][0].endpoint, 5);
}
