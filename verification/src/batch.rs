//! Splitting a port range into batches.

use vstd::prelude::*;

verus! {

/// The ports `lo, lo + 1, ..., hi - 1`, in ascending order.
pub open spec fn port_range(lo: int, hi: int) -> Seq<u16>
    recommends
        0 <= lo <= hi <= 65536,
{
    Seq::new((hi - lo) as nat, |i: int| (lo + i) as u16)
}

/// Where the batch that begins at `from` ends: `size` ports further on, or
/// at `end` if fewer than `size` ports are left.
pub open spec fn batch_limit(from: int, end: int, size: int) -> int {
    if end - from <= size {
        end
    } else {
        from + size
    }
}

/// The number of batches of `size` ports that cover `[start, end)`.
pub open spec fn batch_count(start: int, end: int, size: int) -> int
    recommends
        start <= end,
        size >= 1,
{
    (end - start + size - 1) / size
}

/// The number of the batch that `port` falls in, counting from zero.
pub open spec fn batch_index(start: int, size: int, port: int) -> int
    recommends
        start <= port,
        size >= 1,
{
    (port - start) / size
}

/// A contiguous run of ports `[start, end)` that is probed together.
#[derive(Clone, Copy, Debug, PartialEq, Eq, Structural)]
pub struct Batch {
    pub start: u16,
    pub end: u16,
}

impl Batch {
    /// The ports of the batch, in ascending order.
    pub open spec fn ports(self) -> Seq<u16> {
        port_range(self.start as int, self.end as int)
    }

    /// Whether `port` belongs to the batch.
    pub open spec fn holds(self, port: int) -> bool {
        self.start <= port < self.end
    }

    /// Whether `port` belongs to the batch.
    pub fn contains(&self, port: u16) -> (b: bool)
        ensures
            b == self.holds(port as int),
    {
        self.start <= port && port < self.end
    }
}

/// Batch number `k` of the partition of `[start, end)` into batches of `size`.
pub open spec fn nth_batch(start: int, end: int, size: int, k: int) -> Batch
    recommends
        0 <= start <= end <= 65535,
        size >= 1,
        0 <= k < batch_count(start, end, size),
{
    Batch {
        start: (start + k * size) as u16,
        end: batch_limit(start + k * size, end, size) as u16,
    }
}

/// The partition of `[start, end)` into batches of `size` ports, in
/// ascending order.
pub open spec fn partition(start: int, end: int, size: int) -> Seq<Batch>
    recommends
        0 <= start <= end <= 65535,
        size >= 1,
{
    Seq::new(batch_count(start, end, size) as nat, |k: int| nth_batch(start, end, size, k))
}

/// The batch that begins at `from` in a range that ends at `end`, with at
/// most `size` ports; none if no port is left.
pub fn batch_from(from: u16, end: u16, size: u64) -> (batch: Option<Batch>)
    requires
        size >= 1,
    ensures
        batch == if from < end {
            Some(Batch { start: from, end: batch_limit(from as int, end as int, size as int) as u16 })
        } else {
            None
        },
{
    if from >= end {
        None
    } else if (end - from) as u64 <= size {
        Some(Batch { start: from, end })
    } else {
        Some(Batch { start: from, end: from + size as u16 })
    }
}

/// The whole partition of `[start, end)` into batches of at most `size`
/// ports, in ascending order. Together the batches hold every port of the
/// range exactly once.
pub fn batches(start: u16, end: u16, size: u64) -> (all: Vec<Batch>)
    requires
        start <= end,
        size >= 1,
    ensures
        all@ == partition(start as int, end as int, size as int),
        ports_of(all@) == port_range(start as int, end as int),
{
    proof {
        lemma_partition_covers(start as int, end as int, size as int);
    }
    let mut all: Vec<Batch> = Vec::new();
    let mut from: u16 = start;
    proof {
        lemma_ceil_div(end - start, size as int);
        assert(0 * size == 0) by (nonlinear_arith);
    }
    while from < end
        invariant
            start <= from <= end,
            size >= 1,
            all.len() <= batch_count(start as int, end as int, size as int),
            from < end ==> from == start + all.len() * size,
            from == end ==> all.len() == batch_count(start as int, end as int, size as int),
            forall|k: int|
                0 <= k < all.len() ==> all[k] == nth_batch(start as int, end as int, size as int, k),
        decreases end - from,
    {
        let ghost k = all.len() as int;
        let next = batch_from(from, end, size);
        let batch = next.unwrap();
        proof {
            lemma_batch_in_count(start as int, end as int, size as int, k);
            assert((k + 1) * size == k * size + size) by (nonlinear_arith);
            if batch.end == end {
                lemma_last_batch(start as int, end as int, size as int, k);
            }
        }
        all.push(batch);
        from = batch.end;
    }
    assert(all@ =~= partition(start as int, end as int, size as int));
    all
}

/// The ports of all of `batches`, one batch after the other.
pub open spec fn ports_of(batches: Seq<Batch>) -> Seq<u16> {
    batches.map_values(|b: Batch| b.ports()).flatten()
}

/// `count` batches of `size` ports are the fewest that hold `n` ports.
proof fn lemma_ceil_div(n: int, size: int)
    requires
        n >= 0,
        size >= 1,
    ensures
        (n + size - 1) / size >= 0,
        n <= ((n + size - 1) / size) * size,
        n > 0 ==> ((n + size - 1) / size - 1) * size < n,
        n == 0 <==> (n + size - 1) / size == 0,
{
    let x = n + size - 1;
    let c = x / size;
    vstd::arithmetic::div_mod::lemma_fundamental_div_mod(x, size);
    vstd::arithmetic::div_mod::lemma_mod_bound(x, size);
    assert(size * c == c * size) by (nonlinear_arith);
    assert((c - 1) * size == c * size - size) by (nonlinear_arith);
    if c < 0 {
        assert(c * size <= -size) by (nonlinear_arith)
            requires
                c <= -1,
                size >= 1,
        ;
    }
    if c >= 1 {
        assert(c * size >= size) by (nonlinear_arith)
            requires
                c >= 1,
                size >= 1,
        ;
    }
}

/// If batch number `k` begins before `end` and would end at or after it, it is the last one.
proof fn lemma_last_batch(start: int, end: int, size: int, k: int)
    requires
        size >= 1,
        k >= 0,
        start + k * size < end <= start + (k + 1) * size,
    ensures
        batch_count(start, end, size) == k + 1,
{
    let n = end - start;
    let c = batch_count(start, end, size);
    lemma_ceil_div(n, size);
    assert(c == k + 1) by (nonlinear_arith)
        requires
            size >= 1,
            k * size < n <= (k + 1) * size,
            (c - 1) * size < n <= c * size,
    ;
}

/// Batches of the partition are numbered below `batch_count`.
proof fn lemma_batch_in_count(start: int, end: int, size: int, k: int)
    requires
        size >= 1,
        k >= 0,
        start + k * size < end,
    ensures
        k < batch_count(start, end, size),
{
    let n = end - start;
    let c = batch_count(start, end, size);
    lemma_ceil_div(n, size);
    assert(k < c) by (nonlinear_arith)
        requires
            size >= 1,
            k * size < n <= c * size,
    ;
}

/// Consecutive port ranges join into one.
pub proof fn lemma_port_range_join(lo: int, mid: int, hi: int)
    requires
        lo <= mid <= hi,
    ensures
        port_range(lo, mid) + port_range(mid, hi) == port_range(lo, hi),
{
    assert(port_range(lo, mid) + port_range(mid, hi) =~= port_range(lo, hi));
}

/// The shape of the partition: there is no batch exactly when the range is
/// empty; the first batch begins at `start`, each batch begins where the one
/// before it ends, and the last one ends at `end`; no batch is empty; every
/// batch but the last holds exactly `size` ports, and the last at most `size`.
pub proof fn lemma_partition_shape(start: int, end: int, size: int)
    requires
        0 <= start <= end <= 65535,
        size >= 1,
    ensures
        partition(start, end, size).len() == batch_count(start, end, size),
        partition(start, end, size).len() == 0 <==> start == end,
        start < end ==> partition(start, end, size).first().start == start,
        start < end ==> partition(start, end, size).last().end == end,
        forall|k: int|
            #![trigger partition(start, end, size)[k]]
            0 <= k < partition(start, end, size).len() ==> {
                let batch = partition(start, end, size)[k];
                &&& batch.start == start + k * size
                &&& start <= batch.start < batch.end <= end
                &&& batch.end - batch.start <= size
                &&& k + 1 < partition(start, end, size).len() ==> batch.end - batch.start == size
                &&& k + 1 < partition(start, end, size).len() ==> partition(start, end, size)[k
                    + 1].start == batch.end
            },
{
    let count = batch_count(start, end, size);
    let all = partition(start, end, size);
    lemma_ceil_div(end - start, size);
    assert forall|k: int| 0 <= k < all.len() implies {
        let batch = #[trigger] all[k];
        &&& batch.start == start + k * size
        &&& start <= batch.start < batch.end <= end
        &&& batch.end - batch.start <= size
        &&& k + 1 < all.len() ==> batch.end - batch.start == size
        &&& k + 1 < all.len() ==> all[k + 1].start == batch.end
    } by {
        lemma_batch_start_in_range(start, end, size, k);
        assert((k + 1) * size == k * size + size) by (nonlinear_arith);
        if k + 1 < all.len() {
            lemma_batch_start_in_range(start, end, size, k + 1);
        }
    }
    if start < end {
        assert(all.first() == all[0]);
        assert(0 * size == 0) by (nonlinear_arith);
        let last = count - 1;
        assert(all.last() == all[last]);
        assert((last + 1) * size == last * size + size) by (nonlinear_arith);
    }
}

/// Every batch of the partition begins inside the range.
proof fn lemma_batch_start_in_range(start: int, end: int, size: int, k: int)
    requires
        start <= end,
        size >= 1,
        0 <= k < batch_count(start, end, size),
    ensures
        start <= start + k * size < end,
{
    let n = end - start;
    let c = batch_count(start, end, size);
    lemma_ceil_div(n, size);
    assert(0 <= k * size < n) by (nonlinear_arith)
        requires
            size >= 1,
            0 <= k < c,
            (c - 1) * size < n,
    ;
}

/// The first `k` batches of the partition hold the ports from `start` up to
/// where batch number `k` begins, each once and in ascending order.
proof fn lemma_prefix_covers(start: int, end: int, size: int, k: int)
    requires
        0 <= start <= end <= 65535,
        size >= 1,
        0 <= k <= batch_count(start, end, size),
    ensures
        ports_of(partition(start, end, size).take(k)) == port_range(
            start,
            if k == batch_count(start, end, size) {
                end
            } else {
                start + k * size
            },
        ),
    decreases k,
{
    let all = partition(start, end, size);
    let ports = |b: Batch| b.ports();
    lemma_partition_shape(start, end, size);
    if k == 0 {
        assert(all.take(0).map_values(ports) =~= Seq::<Seq<u16>>::empty());
        assert(0 * size == 0) by (nonlinear_arith);
        assert(ports_of(all.take(0)) =~= port_range(start, start));
    } else {
        lemma_prefix_covers(start, end, size, k - 1);
        let batch = all[k - 1];
        assert(all.take(k) =~= all.take(k - 1).push(batch));
        assert(all.take(k).map_values(ports) =~= all.take(k - 1).map_values(ports).push(
            batch.ports(),
        ));
        all.take(k - 1).map_values(ports).lemma_flatten_push(batch.ports());
        lemma_port_range_join(start, batch.start as int, batch.end as int);
    }
}

/// The batches of the partition, one after the other, hold every port of
/// `[start, end)` exactly once, in ascending order.
pub proof fn lemma_partition_covers(start: int, end: int, size: int)
    requires
        0 <= start <= end <= 65535,
        size >= 1,
    ensures
        ports_of(partition(start, end, size)) == port_range(start, end),
{
    let all = partition(start, end, size);
    lemma_ceil_div(end - start, size);
    lemma_prefix_covers(start, end, size, batch_count(start, end, size));
    assert(all.take(all.len() as int) =~= all);
}

/// Every port of the range lies in the batch that its index names, and in no other.
pub proof fn lemma_port_in_one_batch(start: int, end: int, size: int, port: int)
    requires
        0 <= start <= port < end <= 65535,
        size >= 1,
    ensures
        0 <= batch_index(start, size, port) < batch_count(start, end, size),
        forall|k: int|
            0 <= k < batch_count(start, end, size) ==> (#[trigger] partition(start, end, size)[k].holds(
                port,
            ) <==> k == batch_index(start, size, port)),
{
    let idx = batch_index(start, size, port);
    let offset = port - start;
    vstd::arithmetic::div_mod::lemma_fundamental_div_mod(offset, size);
    vstd::arithmetic::div_mod::lemma_mod_bound(offset, size);
    assert(size * idx == idx * size) by (nonlinear_arith);
    assert(idx >= 0) by (nonlinear_arith)
        requires
            size >= 1,
            idx * size + offset % size >= 0,
            offset % size < size,
    ;
    lemma_batch_in_count(start, end, size, idx);
    lemma_partition_shape(start, end, size);
    assert forall|k: int| 0 <= k < batch_count(start, end, size) implies (#[trigger] partition(
        start,
        end,
        size,
    )[k].holds(port) <==> k == idx) by {
        if k < idx {
            assert(k * size + size <= idx * size) by (nonlinear_arith)
                requires
                    k + 1 <= idx,
                    size >= 1,
            ;
        }
        if k > idx {
            assert(idx * size + size <= k * size) by (nonlinear_arith)
                requires
                    idx + 1 <= k,
                    size >= 1,
            ;
        }
    }
}

} // verus!
