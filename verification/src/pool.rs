use vstd::prelude::*;

use crate::entry::ConnPoolEntry;
use crate::handle::ConnectionHandle;

verus! {

/// What one reuse attempt does to a queue: closed entries at the front are
/// discarded (not requeued); the first open entry is moved to the back and
/// also returned; a queue without an open entry empties out and yields none.
pub open spec fn acquire_spec<C: ConnectionHandle>(q: Seq<ConnPoolEntry<C>>) -> (
    Seq<ConnPoolEntry<C>>,
    Option<ConnPoolEntry<C>>,
)
    decreases q.len(),
{
    if q.len() == 0 {
        (q, None::<ConnPoolEntry<C>>)
    } else if q[0].conn.is_closed_spec() {
        acquire_spec(q.skip(1))
    } else {
        (q.skip(1).push(q[0]), Some(q[0]))
    }
}

/// The queue with every entry of the given identity deleted, order kept.
pub open spec fn remove_id_spec<C: ConnectionHandle>(
    q: Seq<ConnPoolEntry<C>>,
    conn_id: u128,
) -> Seq<ConnPoolEntry<C>>
    decreases q.len(),
{
    if q.len() == 0 {
        Seq::<ConnPoolEntry<C>>::empty()
    } else if q[0].conn_id == conn_id {
        remove_id_spec(q.skip(1), conn_id)
    } else {
        seq![q[0]] + remove_id_spec(q.skip(1), conn_id)
    }
}

/// The queue with every closed entry deleted, order kept: one lazy reap.
pub open spec fn live_entries_spec<C: ConnectionHandle>(
    q: Seq<ConnPoolEntry<C>>,
) -> Seq<ConnPoolEntry<C>>
    decreases q.len(),
{
    if q.len() == 0 {
        Seq::<ConnPoolEntry<C>>::empty()
    } else if q[0].conn.is_closed_spec() {
        live_entries_spec(q.skip(1))
    } else {
        seq![q[0]] + live_entries_spec(q.skip(1))
    }
}

/// No two entries of the queue share an identity.
pub open spec fn distinct_ids<C: ConnectionHandle>(q: Seq<ConnPoolEntry<C>>) -> bool {
    forall|a: int, b: int|
        0 <= a < b < q.len() ==> (#[trigger] q[a]).conn_id != (#[trigger] q[b]).conn_id
}

/// Some entry of the queue carries the given identity.
pub open spec fn contains_id<C: ConnectionHandle>(q: Seq<ConnPoolEntry<C>>, conn_id: u128) -> bool {
    exists|k: int| 0 <= k < q.len() && (#[trigger] q[k]).conn_id == conn_id
}

/// Every entry of the queue reports a terminated transport.
pub open spec fn all_closed<C: ConnectionHandle>(q: Seq<ConnPoolEntry<C>>) -> bool {
    forall|k: int| 0 <= k < q.len() ==> (#[trigger] q[k]).conn.is_closed_spec()
}

/// Every entry of the queue reports a live transport.
pub open spec fn all_open<C: ConnectionHandle>(q: Seq<ConnPoolEntry<C>>) -> bool {
    forall|k: int| 0 <= k < q.len() ==> !(#[trigger] q[k]).conn.is_closed_spec()
}

/// One reuse attempt keeps identities distinct and never grows the queue.
pub proof fn lemma_acquire_props<C: ConnectionHandle>(q: Seq<ConnPoolEntry<C>>)
    requires
        distinct_ids(q),
    ensures
        distinct_ids(acquire_spec(q).0),
        acquire_spec(q).0.len() <= q.len(),
    decreases q.len(),
{
    if q.len() == 0 {
    } else if q[0].conn.is_closed_spec() {
        assert forall|a: int, b: int| 0 <= a < b < q.skip(1).len() implies (#[trigger] q.skip(1)[a]).conn_id
            != (#[trigger] q.skip(1)[b]).conn_id by {
            assert(q.skip(1)[a] == q[a + 1]);
            assert(q.skip(1)[b] == q[b + 1]);
        }
        lemma_acquire_props(q.skip(1));
    } else {
        let r = q.skip(1).push(q[0]);
        assert forall|a: int, b: int| 0 <= a < b < r.len() implies (#[trigger] r[a]).conn_id != (
        #[trigger] r[b]).conn_id by {
            assert(r[a] == q[a + 1]);
            if b == r.len() - 1 {
                assert(r[b] == q[0]);
            } else {
                assert(r[b] == q[b + 1]);
            }
        }
    }
}

/// Deleting an identity deletes exactly the matching entries: nothing with
/// the identity survives, everything else does, and distinctness is kept.
pub proof fn lemma_remove_id_props<C: ConnectionHandle>(q: Seq<ConnPoolEntry<C>>, conn_id: u128)
    ensures
        remove_id_spec(q, conn_id).len() <= q.len(),
        forall|k: int| 0 <= k < remove_id_spec(q, conn_id).len() ==> (#[trigger] remove_id_spec(
            q,
            conn_id,
        )[k]).conn_id != conn_id,
        forall|k: int|
            0 <= k < remove_id_spec(q, conn_id).len() ==> contains_id(
                q,
                (#[trigger] remove_id_spec(q, conn_id)[k]).conn_id,
            ),
        distinct_ids(q) ==> distinct_ids(remove_id_spec(q, conn_id)),
    decreases q.len(),
{
    if q.len() == 0 {
    } else {
        lemma_remove_id_props(q.skip(1), conn_id);
        let rec = remove_id_spec(q.skip(1), conn_id);
        assert forall|k: int| 0 <= k < rec.len() implies contains_id(q, (#[trigger] rec[k]).conn_id) by {
            let m = choose|m: int| 0 <= m < q.skip(1).len() && (#[trigger] q.skip(1)[m]).conn_id
                == rec[k].conn_id;
            assert(q[m + 1].conn_id == rec[k].conn_id);
        }
        if q[0].conn_id == conn_id {
        } else {
            let r = seq![q[0]] + rec;
            assert forall|k: int| 0 <= k < r.len() implies contains_id(q, (#[trigger] r[k]).conn_id) by {
                if k == 0 {
                    assert(q[0].conn_id == r[0].conn_id);
                } else {
                    assert(r[k] == rec[k - 1]);
                }
            }
            if distinct_ids(q) {
                assert forall|a: int, b: int| 0 <= a < b < q.skip(1).len() implies (
                #[trigger] q.skip(1)[a]).conn_id != (#[trigger] q.skip(1)[b]).conn_id by {
                    assert(q.skip(1)[a] == q[a + 1]);
                    assert(q.skip(1)[b] == q[b + 1]);
                }
                assert forall|a: int, b: int| 0 <= a < b < r.len() implies (#[trigger] r[a]).conn_id
                    != (#[trigger] r[b]).conn_id by {
                    if a == 0 {
                        let m = choose|m: int|
                            0 <= m < q.skip(1).len() && (#[trigger] q.skip(1)[m]).conn_id == rec[b
                                - 1].conn_id;
                        assert(q[m + 1].conn_id == rec[b - 1].conn_id);
                        assert(r[b] == rec[b - 1]);
                    } else {
                        assert(r[a] == rec[a - 1]);
                        assert(r[b] == rec[b - 1]);
                    }
                }
            }
        }
    }
}

/// The lazy reap keeps only open entries, keeps identities distinct, and
/// never grows the queue.
pub proof fn lemma_live_entries_props<C: ConnectionHandle>(q: Seq<ConnPoolEntry<C>>)
    ensures
        live_entries_spec(q).len() <= q.len(),
        all_open(live_entries_spec(q)),
        forall|k: int|
            0 <= k < live_entries_spec(q).len() ==> contains_id(
                q,
                (#[trigger] live_entries_spec(q)[k]).conn_id,
            ),
        distinct_ids(q) ==> distinct_ids(live_entries_spec(q)),
    decreases q.len(),
{
    if q.len() == 0 {
    } else {
        lemma_live_entries_props(q.skip(1));
        let rec = live_entries_spec(q.skip(1));
        assert forall|k: int| 0 <= k < rec.len() implies contains_id(q, (#[trigger] rec[k]).conn_id) by {
            let m = choose|m: int| 0 <= m < q.skip(1).len() && (#[trigger] q.skip(1)[m]).conn_id
                == rec[k].conn_id;
            assert(q[m + 1].conn_id == rec[k].conn_id);
        }
        if q[0].conn.is_closed_spec() {
        } else {
            let r = seq![q[0]] + rec;
            assert forall|k: int| 0 <= k < r.len() implies contains_id(q, (#[trigger] r[k]).conn_id) by {
                if k == 0 {
                    assert(q[0].conn_id == r[0].conn_id);
                } else {
                    assert(r[k] == rec[k - 1]);
                }
            }
            assert forall|k: int| 0 <= k < r.len() implies !(#[trigger] r[k]).conn.is_closed_spec() by {
                if k != 0 {
                    assert(r[k] == rec[k - 1]);
                }
            }
            if distinct_ids(q) {
                assert forall|a: int, b: int| 0 <= a < b < q.skip(1).len() implies (
                #[trigger] q.skip(1)[a]).conn_id != (#[trigger] q.skip(1)[b]).conn_id by {
                    assert(q.skip(1)[a] == q[a + 1]);
                    assert(q.skip(1)[b] == q[b + 1]);
                }
                assert forall|a: int, b: int| 0 <= a < b < r.len() implies (#[trigger] r[a]).conn_id
                    != (#[trigger] r[b]).conn_id by {
                    if a == 0 {
                        let m = choose|m: int|
                            0 <= m < q.skip(1).len() && (#[trigger] q.skip(1)[m]).conn_id == rec[b
                                - 1].conn_id;
                        assert(q[m + 1].conn_id == rec[b - 1].conn_id);
                        assert(r[b] == rec[b - 1]);
                    } else {
                        assert(r[a] == rec[a - 1]);
                        assert(r[b] == rec[b - 1]);
                    }
                }
            }
        }
    }
}

/// A queue of only-closed handles yields no reusable entry, and the attempt
/// leaves the queue empty, ready for the next sweep to evict the pool.
pub proof fn lemma_acquire_all_closed<C: ConnectionHandle>(q: Seq<ConnPoolEntry<C>>)
    requires
        all_closed(q),
    ensures
        acquire_spec(q).1 == None::<ConnPoolEntry<C>>,
        acquire_spec(q).0.len() == 0,
        live_entries_spec(q).len() == 0,
    decreases q.len(),
{
    if q.len() == 0 {
    } else {
        assert forall|k: int| 0 <= k < q.skip(1).len() implies (#[trigger] q.skip(
            1,
        )[k]).conn.is_closed_spec() by {
            assert(q.skip(1)[k] == q[k + 1]);
        }
        lemma_acquire_all_closed(q.skip(1));
    }
}

/// Nothing carrying the identity survives its removal.
pub proof fn lemma_remove_id_absent<C: ConnectionHandle>(q: Seq<ConnPoolEntry<C>>, conn_id: u128)
    ensures
        !contains_id(remove_id_spec(q, conn_id), conn_id),
{
    lemma_remove_id_props(q, conn_id);
}

/// Removing an identity that no entry carries changes nothing.
pub proof fn lemma_remove_id_noop<C: ConnectionHandle>(q: Seq<ConnPoolEntry<C>>, conn_id: u128)
    requires
        !contains_id(q, conn_id),
    ensures
        remove_id_spec(q, conn_id) == q,
    decreases q.len(),
{
    if q.len() == 0 {
        assert(remove_id_spec(q, conn_id) =~= q);
    } else {
        assert(q[0].conn_id != conn_id);
        assert forall|k: int| 0 <= k < q.skip(1).len() implies (#[trigger] q.skip(1)[k]).conn_id
            != conn_id by {
            assert(q.skip(1)[k] == q[k + 1]);
        }
        lemma_remove_id_noop(q.skip(1), conn_id);
        assert(seq![q[0]] + q.skip(1) =~= q);
    }
}

/// Removal is idempotent: a second removal of the same identity deletes
/// nothing and leaves the queue as it was.
pub proof fn lemma_remove_conn_idempotent<C: ConnectionHandle>(
    q: Seq<ConnPoolEntry<C>>,
    conn_id: u128,
)
    ensures
        remove_id_spec(remove_id_spec(q, conn_id), conn_id) == remove_id_spec(q, conn_id),
{
    lemma_remove_id_absent(q, conn_id);
    lemma_remove_id_noop(remove_id_spec(q, conn_id), conn_id);
}

/// The queue left behind by `n` consecutive reuse attempts.
pub open spec fn acquire_n_queue<C: ConnectionHandle>(q: Seq<ConnPoolEntry<C>>, n: nat) -> Seq<
    ConnPoolEntry<C>,
>
    decreases n,
{
    if n == 0 {
        q
    } else {
        acquire_spec(acquire_n_queue(q, (n - 1) as nat)).0
    }
}

/// What reuse attempt number `n` (counting from zero) returns.
pub open spec fn acquire_n_result<C: ConnectionHandle>(q: Seq<ConnPoolEntry<C>>, n: nat) -> Option<
    ConnPoolEntry<C>,
> {
    acquire_spec(acquire_n_queue(q, n)).1
}

/// One reuse attempt on an all-open queue returns the front entry and
/// rotates it to the back.
pub proof fn lemma_round_robin_step<C: ConnectionHandle>(q: Seq<ConnPoolEntry<C>>)
    requires
        all_open(q),
        q.len() > 0,
    ensures
        acquire_spec(q).1 == Some(q[0]),
        acquire_spec(q).0 == q.skip(1).push(q[0]),
        acquire_spec(q).0.len() == q.len(),
        all_open(acquire_spec(q).0),
{
    let r = q.skip(1).push(q[0]);
    assert forall|k: int| 0 <= k < r.len() implies !(#[trigger] r[k]).conn.is_closed_spec() by {
        if k < r.len() - 1 {
            assert(r[k] == q[k + 1]);
        } else {
            assert(r[k] == q[0]);
        }
    }
}

/// Round-robin over one cycle: on an all-open queue of entries e0..e(N-1),
/// reuse attempt `n` returns `e_n`, and `n` attempts leave the queue rotated
/// by `n` — the served entries requeued at the back in their original order.
pub proof fn lemma_round_robin_cycle<C: ConnectionHandle>(q: Seq<ConnPoolEntry<C>>, n: nat)
    requires
        all_open(q),
        n <= q.len(),
    ensures
        acquire_n_queue(q, n) == q.skip(n as int) + q.take(n as int),
        all_open(acquire_n_queue(q, n)),
        acquire_n_queue(q, n).len() == q.len(),
        n < q.len() ==> acquire_n_result(q, n) == Some(q[n as int]),
    decreases n,
{
    let len = q.len() as int;
    if n == 0 {
        assert(q.skip(0) + q.take(0) =~= q);
        if q.len() > 0 {
            lemma_round_robin_step(q);
        }
    } else {
        lemma_round_robin_cycle(q, (n - 1) as nat);
        let m = n - 1;
        let prev = acquire_n_queue(q, (n - 1) as nat);
        lemma_round_robin_step(prev);
        let next = prev.skip(1).push(prev[0]);
        assert(prev[0] == (q.skip(m) + q.take(m))[0]);
        assert(prev[0] == q[m]);
        let target = q.skip(n as int) + q.take(n as int);
        assert forall|i: int| 0 <= i < next.len() implies next[i] == target[i] by {
            if i < len - 1 {
                assert(next[i] == prev[i + 1]);
                if i + 1 < len - m {
                    assert(prev[i + 1] == q.skip(m)[i + 1]);
                    assert(target[i] == q.skip(n as int)[i]);
                } else {
                    assert(prev[i + 1] == q.take(m)[i + 1 - (len - m)]);
                    assert(target[i] == q.take(n as int)[i - (len - n)]);
                }
            } else {
                assert(next[i] == q[m]);
                assert(target[i] == q.take(n as int)[i - (len - n)]);
            }
        }
        assert(next =~= target);
        if n < q.len() {
            lemma_round_robin_step(acquire_n_queue(q, n));
            assert(acquire_n_queue(q, n)[0] == q.skip(n as int)[0]);
        }
    }
}

/// The rotation is cyclic: a full cycle of reuse attempts restores the queue,
/// so attempt `len + k` returns the same entry as attempt `k`.
pub proof fn lemma_round_robin_cyclic<C: ConnectionHandle>(q: Seq<ConnPoolEntry<C>>, k: nat)
    requires
        all_open(q),
        q.len() > 0,
    ensures
        acquire_n_queue(q, (q.len() + k) as nat) == acquire_n_queue(q, k),
        acquire_n_result(q, (q.len() + k) as nat) == acquire_n_result(q, k),
    decreases k,
{
    if k == 0 {
        lemma_round_robin_cycle(q, q.len());
        assert(q.skip(q.len() as int) + q.take(q.len() as int) =~= q);
    } else {
        lemma_round_robin_cyclic(q, (k - 1) as nat);
        assert(acquire_n_queue(q, (q.len() + k) as nat) == acquire_spec(
            acquire_n_queue(q, (q.len() + k - 1) as nat),
        ).0);
    }
}

/// Per-endpoint reuse queue. The front is index `0`; reuse pops from the
/// front and requeues open entries at the back.
pub struct EndpointConnPool<C: ConnectionHandle> {
    pub conns: Vec<ConnPoolEntry<C>>,
}

impl<C: ConnectionHandle> EndpointConnPool<C> {
    pub fn new() -> (r: Self)
        ensures
            r.conns@.len() == 0,
    {
        EndpointConnPool { conns: Vec::new() }
    }

    /// Round-robin reuse: discard closed entries from the front until an open
    /// one appears; requeue it at the back and hand out a share of it. A reuse
    /// hit never shrinks the queue; only closed entries leave it here — and
    /// they leave without touching any shared counter (explicit removal and
    /// the sweep are the paths that reconcile the counter).
    pub fn get_conn_entry(&mut self) -> (r: Option<ConnPoolEntry<C>>)
        ensures
            final(self).conns@ == acquire_spec(old(self).conns@).0,
            r == acquire_spec(old(self).conns@).1,
    {
        let ghost q0 = self.conns@;
        loop
            invariant
                q0 == old(self).conns@,
                acquire_spec(q0) == acquire_spec(self.conns@),
            decreases self.conns.len(),
        {
            let ghost c = self.conns@;
            if self.conns.len() == 0 {
                proof {
                    assert(acquire_spec(c) == (c, None::<ConnPoolEntry<C>>));
                }
                return None;
            }
            let e = self.conns.remove(0);
            proof {
                assert(self.conns@ =~= c.skip(1));
            }
            if !e.conn.is_closed() {
                let requeued = e.share();
                self.conns.push(requeued);
                proof {
                    assert(acquire_spec(c) == (c.skip(1).push(c[0]), Some(c[0])));
                    assert(self.conns@ =~= c.skip(1).push(c[0]));
                }
                return Some(e);
            }
        }
    }

    /// Delete every entry matching the identity (expected zero or one),
    /// subtract the number deleted from the shared connection counter, and
    /// report whether anything was deleted.
    pub fn remove_conn(&mut self, conn_id: u128, counter: &mut usize) -> (removed: bool)
        requires
            *old(counter) >= old(self).conns@.len(),
        ensures
            final(self).conns@ == remove_id_spec(old(self).conns@, conn_id),
            *final(counter) == *old(counter) - (old(self).conns@.len()
                - final(self).conns@.len()),
            removed == (final(self).conns@.len() < old(self).conns@.len()),
    {
        let ghost q0 = self.conns@;
        let old_len = self.conns.len();
        let mut kept: Vec<ConnPoolEntry<C>> = Vec::new();
        while self.conns.len() > 0
            invariant
                remove_id_spec(q0, conn_id) =~= kept@ + remove_id_spec(self.conns@, conn_id),
                kept@.len() + self.conns@.len() <= q0.len(),
            decreases self.conns.len(),
        {
            let ghost c = self.conns@;
            let e = self.conns.remove(0);
            proof {
                assert(self.conns@ =~= c.skip(1));
            }
            if e.conn_id != conn_id {
                kept.push(e);
                proof {
                    assert(kept@ + remove_id_spec(self.conns@, conn_id) =~= kept@.drop_last()
                        + (seq![c[0]] + remove_id_spec(c.skip(1), conn_id)));
                }
            }
        }
        proof {
            assert(remove_id_spec(q0, conn_id) =~= kept@);
        }
        let new_len = kept.len();
        self.conns = kept;
        let delta = old_len - new_len;
        *counter = *counter - delta;
        delta > 0
    }

    /// Delete every closed entry and report how many left: the lazy reap that
    /// reuse does not perform, run by the reclamation sweep under its shard
    /// lock.
    pub fn purge_closed(&mut self) -> (n: usize)
        ensures
            final(self).conns@ == live_entries_spec(old(self).conns@),
            n == old(self).conns@.len() - final(self).conns@.len(),
            final(self).conns@.len() <= old(self).conns@.len(),
    {
        let ghost q0 = self.conns@;
        let old_len = self.conns.len();
        let mut kept: Vec<ConnPoolEntry<C>> = Vec::new();
        while self.conns.len() > 0
            invariant
                live_entries_spec(q0) =~= kept@ + live_entries_spec(self.conns@),
                kept@.len() + self.conns@.len() <= q0.len(),
            decreases self.conns.len(),
        {
            let ghost c = self.conns@;
            let e = self.conns.remove(0);
            proof {
                assert(self.conns@ =~= c.skip(1));
            }
            if !e.conn.is_closed() {
                kept.push(e);
                proof {
                    assert(kept@ + live_entries_spec(self.conns@) =~= kept@.drop_last()
                        + (seq![c[0]] + live_entries_spec(c.skip(1))));
                }
            }
        }
        proof {
            assert(live_entries_spec(q0) =~= kept@);
        }
        let new_len = kept.len();
        self.conns = kept;
        old_len - new_len
    }
}

} // verus!
