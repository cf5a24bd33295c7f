//! Round-robin distribution of a run's requests over a fixed worker pool.

use vstd::prelude::*;
use vstd::arithmetic::div_mod::lemma_fundamental_div_mod_converse;

verus! {

/// One entry of a worker's queue.
#[derive(Clone, Copy, Debug, PartialEq, Eq, Structural)]
pub enum WorkItem {
    /// Perform request number `i` of the run.
    Execute(u64),
    /// No more work: the worker stops after this.
    Stop,
}

/// Why a run cannot be dispatched.
#[derive(Clone, Copy, Debug, PartialEq, Eq, Structural)]
pub enum DispatchError {
    /// The worker pool would be empty.
    NoWorkers,
}

/// How many of requests `0..n` worker `k` of `c` receives: `⌈(n − k) / c⌉`,
/// and none when `k ≥ n`.
pub open spec fn share(n: int, c: int, k: int) -> int {
    if k < n {
        (n - k - 1) / c + 1
    } else {
        0
    }
}

/// Sum of the shares of workers `0..m`.
pub open spec fn share_total(n: int, c: int, m: int) -> int
    decreases m,
{
    if m <= 0 {
        0
    } else {
        share_total(n, c, m - 1) + share(n, c, m - 1)
    }
}

/// The queue of worker `k`: its requests `k, k + c, k + 2c, …` below `n`,
/// then one `Stop`.
pub open spec fn queue_of(n: int, c: int, k: int) -> Seq<WorkItem> {
    Seq::new(share(n, c, k) as nat, |j: int| WorkItem::Execute((k + j * c) as u64)).push(
        WorkItem::Stop,
    )
}

/// The worker that request `i` goes to.
pub fn worker_of(i: u64, c: u64) -> (r: u64)
    requires
        c >= 1,
    ensures
        r == i % c,
{
    i % c
}

proof fn lemma_share_step(n: int, c: int, k: int)
    requires
        0 <= n,
        0 <= k < c,
    ensures
        share(n + 1, c, k) == share(n, c, k) + (if n % c == k {
            1int
        } else {
            0int
        }),
{
    if k > n {
        lemma_fundamental_div_mod_converse(n, c, 0, n);
    } else if k == n {
        lemma_fundamental_div_mod_converse(n, c, 0, n);
        lemma_fundamental_div_mod_converse(0, c, 0, 0);
    } else {
        let m = n - k - 1;
        let q = m / c;
        let r = m % c;
        assert(m == q * c + r && 0 <= r < c) by (nonlinear_arith)
            requires c > 0, m >= 0, q == m / c, r == m % c;
        if r == c - 1 {
            assert(m + 1 == (q + 1) * c + 0) by (nonlinear_arith)
                requires m == q * c + r, r == c - 1;
            lemma_fundamental_div_mod_converse(m + 1, c, q + 1, 0);
            assert(n == (q + 1) * c + k) by (nonlinear_arith)
                requires m + 1 == (q + 1) * c, n == m + 1 + k;
            lemma_fundamental_div_mod_converse(n, c, q + 1, k);
        } else {
            assert(m + 1 == q * c + (r + 1)) by (nonlinear_arith)
                requires m == q * c + r;
            lemma_fundamental_div_mod_converse(m + 1, c, q, r + 1);
            if k + 1 + r < c {
                assert(n == q * c + (k + 1 + r)) by (nonlinear_arith)
                    requires m == q * c + r, n == m + 1 + k;
                lemma_fundamental_div_mod_converse(n, c, q, k + 1 + r);
            } else {
                assert(n == (q + 1) * c + (k + 1 + r - c)) by (nonlinear_arith)
                    requires m == q * c + r, n == m + 1 + k;
                lemma_fundamental_div_mod_converse(n, c, q + 1, k + 1 + r - c);
            }
        }
    }
}

proof fn lemma_share_total_step(n: int, c: int, m: int)
    requires
        0 <= n,
        0 <= m <= c,
        c >= 1,
    ensures
        share_total(n + 1, c, m) == share_total(n, c, m) + (if n % c < m {
            1int
        } else {
            0int
        }),
    decreases m,
{
    if m > 0 {
        lemma_share_total_step(n, c, m - 1);
        lemma_share_step(n, c, m - 1);
    }
}

proof fn lemma_share_total_zero(c: int, m: int)
    requires
        0 <= m,
    ensures
        share_total(0, c, m) == 0,
    decreases m,
{
    if m > 0 {
        lemma_share_total_zero(c, m - 1);
    }
}

/// Round-robin dispatch hands out every request exactly once: the shares
/// `⌈(n − k) / c⌉` of the `c` workers add up to `n`.
pub proof fn lemma_dispatch_total(n: nat, c: nat)
    requires
        c >= 1,
    ensures
        share_total(n as int, c as int, c as int) == n,
    decreases n,
{
    if n == 0 {
        lemma_share_total_zero(c as int, c as int);
    } else {
        lemma_dispatch_total((n - 1) as nat, c);
        lemma_share_total_step(n - 1, c as int, c as int);
        assert((n - 1) % (c as int) < c) by (nonlinear_arith)
            requires c >= 1;
    }
}

/// Request `i < n` lands in the queue of worker `i mod c`, at position
/// `i / c`.
pub proof fn lemma_dispatch_position(n: nat, c: nat, i: nat)
    requires
        c >= 1,
        i < n,
    ensures
        (i / c) < share(n as int, c as int, (i % c) as int),
        queue_of(n as int, c as int, (i % c) as int)[(i / c) as int] == WorkItem::Execute(i as u64),
{
    let k = (i % c) as int;
    let q = (i / c) as int;
    assert(i == q * c + k && 0 <= k < c && q >= 0) by (nonlinear_arith)
        requires c >= 1, k == i % c, q == i / c;
    assert(n - k - 1 >= q * c) by (nonlinear_arith)
        requires i == q * c + k, i < n;
    assert((n - k - 1) / (c as int) >= q) by (nonlinear_arith)
        requires n - k - 1 >= q * c, c >= 1, q >= 0;
}

/// The queues of a run of `n` requests over `c` workers: worker `k` gets
/// requests `k, k + c, …` in order, then exactly one `Stop`. An empty pool
/// is refused.
pub fn plan_queues(n: u64, c: usize) -> (r: Result<Vec<Vec<WorkItem>>, DispatchError>)
    ensures
        c == 0 <==> r is Err,
        r matches Ok(qs) ==> qs@.len() == c && forall|k: int| 0 <= k < c ==> #[trigger] qs@[k]@
            == queue_of(n as int, c as int, k),
{
    if c == 0 {
        return Err(DispatchError::NoWorkers);
    }
    let mut qs: Vec<Vec<WorkItem>> = Vec::new();
    let mut k: usize = 0;
    while k < c
        invariant
            c >= 1,
            k <= c,
            qs@.len() == k,
            forall|w: int| 0 <= w < k ==> #[trigger] qs@[w]@ == queue_of(n as int, c as int, w),
        decreases c - k,
    {
        let mut q: Vec<WorkItem> = Vec::new();
        let mut idx: u128 = k as u128;
        let ghost mut j: int = 0;
        while idx < n as u128
            invariant
                c >= 1,
                k < c,
                j >= 0,
                idx == k + j * c,
                j > 0 ==> k + (j - 1) * c < n,
                q@.len() == j,
                forall|t: int| 0 <= t < j ==> q@[t] == WorkItem::Execute((k + t * c) as u64),
                idx < n + c,
            decreases n + c - idx,
        {
            q.push(WorkItem::Execute(idx as u64));
            idx = idx + c as u128;
            proof {
                assert(idx == k + (j + 1) * c) by (nonlinear_arith)
                    requires idx == k + j * c + c;
                j = j + 1;
            }
        }
        proof {
            let s = share(n as int, c as int, k as int);
            if k < n {
                assert(j >= 1) by (nonlinear_arith)
                    requires k + j * c >= n, k < n, j >= 0;
                assert(n - k - 1 == (j - 1) * c + (n - k - 1 - (j - 1) * c)) by (nonlinear_arith);
                assert(n <= k + (j - 1) * c + c) by (nonlinear_arith)
                    requires k + j * c >= n;
                lemma_fundamental_div_mod_converse(n - k - 1, c as int, j - 1, n - k - 1 - (j - 1) * c);
            } else {
                assert(j == 0) by (nonlinear_arith)
                    requires j > 0 ==> k + (j - 1) * c < n, k >= n, j >= 0, c >= 1;
            }
            assert(j == s);
        }
        q.push(WorkItem::Stop);
        assert(q@ =~= queue_of(n as int, c as int, k as int));
        qs.push(q);
        k = k + 1;
    }
    Ok(qs)
}

} // verus!
