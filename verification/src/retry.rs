//! Bounded exponential-backoff retry.
//!
//! A fetch is attempted up to a fixed number of times. After the `n`th
//! failure the caller backs off for the base delay doubled `n - 1` times,
//! capped at a maximum; after the last allowed attempt the fetch is
//! exhausted and carries its final error. The machine only decides; the
//! caller performs attempts and sleeps.

use vstd::prelude::*;
use vstd::arithmetic::power2::pow2;
use vstd::arithmetic::power2::lemma_pow2_unfold;
use vstd::arithmetic::power2::lemma_pow2_pos;
use vstd::arithmetic::power2::lemma2_to64;
use crate::records::FetchError;
use crate::records::User;

verus! {

/// How many attempts are allowed and how the backoff between them grows.
#[derive(Clone, Copy, Debug, PartialEq, Eq, Structural)]
pub struct RetryPolicy {
    pub max_attempts: u32,
    pub base_delay_ms: u64,
    pub max_delay_ms: u64,
}

impl RetryPolicy {
    pub open spec fn wf(self) -> bool {
        self.max_attempts >= 1
    }

    /// The reference policy: five attempts, five seconds of initial
    /// backoff, five minutes at most.
    pub fn standard() -> (r: RetryPolicy)
        ensures
            r == (RetryPolicy { max_attempts: 5u32, base_delay_ms: 5000u64, max_delay_ms: 300000u64 }),
            r.wf(),
    {
        RetryPolicy { max_attempts: 5, base_delay_ms: 5000, max_delay_ms: 300000 }
    }
}

/// What one attempt came to.
#[derive(Debug, Clone, PartialEq)]
pub enum AttemptOutcome {
    Success(User),
    Failure(FetchError),
}

/// Where a fetch stands: about to run attempt `n` (1-based), done with a
/// record, or exhausted with the last error.
#[derive(Debug, Clone, PartialEq)]
pub enum RetryStatus {
    Attempting(u32),
    Done(User),
    Exhausted(FetchError),
}

/// The backoff after the `n`th failed attempt: the base delay doubled
/// `n - 1` times, capped at the maximum delay.
pub open spec fn backoff_ms(p: RetryPolicy, n: u32) -> int {
    let raw = p.base_delay_ms * pow2((n - 1) as nat);
    if raw < p.max_delay_ms as int {
        raw
    } else {
        p.max_delay_ms as int
    }
}

/// The state after attempt `n` ends with outcome `o`.
pub open spec fn retry_step(p: RetryPolicy, n: u32, o: AttemptOutcome) -> RetryStatus {
    match o {
        AttemptOutcome::Success(u) => RetryStatus::Done(u),
        AttemptOutcome::Failure(e) => if n < p.max_attempts {
            RetryStatus::Attempting((n + 1) as u32)
        } else {
            RetryStatus::Exhausted(e)
        },
    }
}

/// The backoff delay in milliseconds, computed by repeated doubling.
pub fn backoff_delay_ms(p: &RetryPolicy, n: u32) -> (r: u64)
    requires
        1 <= n,
    ensures
        r as int == backoff_ms(*p, n),
{
    let mut d: u64 = p.base_delay_ms;
    let mut i: u32 = 1;
    proof {
        lemma2_to64();
    }
    while i < n && d < p.max_delay_ms
        invariant
            1 <= i <= n,
            backoff_ms(*p, n) == ({
                let raw = d * pow2((n - i) as nat);
                if raw < p.max_delay_ms as int {
                    raw
                } else {
                    p.max_delay_ms as int
                }
            }),
        decreases n - i,
    {
        proof {
            lemma_pow2_unfold((n - i) as nat);
            lemma_pow2_pos((n - i - 1) as nat);
            assert(d * pow2((n - i) as nat) == (d * 2) * pow2((n - i - 1) as nat)) by (
            nonlinear_arith)
                requires
                    pow2((n - i) as nat) == 2 * pow2((n - i - 1) as nat),
            ;
        }
        if d > p.max_delay_ms / 2 {
            proof {
                let k = (n - i - 1) as nat;
                assert(d * 2 > p.max_delay_ms);
                assert((d * 2) * pow2(k) >= (d * 2) * 1) by (nonlinear_arith)
                    requires
                        pow2(k) >= 1,
                        d * 2 >= 0,
                ;
            }
            return p.max_delay_ms;
        }
        d = d * 2;
        i = i + 1;
    }
    if i == n {
        proof {
            lemma2_to64();
        }
        if d < p.max_delay_ms {
            d
        } else {
            p.max_delay_ms
        }
    } else {
        proof {
            let k = (n - i) as nat;
            lemma_pow2_pos(k);
            assert(d * pow2(k) >= d * 1) by (nonlinear_arith)
                requires
                    pow2(k) >= 1,
                    d >= 0,
            ;
        }
        p.max_delay_ms
    }
}

/// Advance the retry state with the outcome of attempt `n`, saying how long
/// to back off when another attempt follows.
pub fn retry_next(p: &RetryPolicy, n: u32, o: AttemptOutcome) -> (r: (RetryStatus, Option<u64>))
    requires
        1 <= n,
    ensures
        r.0 == retry_step(*p, n, o),
        (r.1 is Some) <==> (r.0 is Attempting),
        r.1 matches Some(ms) ==> ms as int == backoff_ms(*p, n),
{
    match o {
        AttemptOutcome::Success(u) => (RetryStatus::Done(u), None),
        AttemptOutcome::Failure(e) => {
            if n < p.max_attempts {
                let ms = backoff_delay_ms(p, n);
                (RetryStatus::Attempting(n + 1), Some(ms))
            } else {
                (RetryStatus::Exhausted(e), None)
            }
        },
    }
}

/// Run the machine from attempt `n` over a sequence of outcomes; a terminal
/// state absorbs whatever follows.
pub open spec fn run_retry_from(p: RetryPolicy, n: u32, os: Seq<AttemptOutcome>) -> RetryStatus
    decreases os.len(),
{
    if os.len() == 0 {
        RetryStatus::Attempting(n)
    } else {
        match retry_step(p, n, os[0]) {
            RetryStatus::Attempting(n2) => run_retry_from(p, n2, os.drop_first()),
            t => t,
        }
    }
}

/// A whole fetch: attempts start at 1.
pub open spec fn run_retry(p: RetryPolicy, os: Seq<AttemptOutcome>) -> RetryStatus {
    run_retry_from(p, 1, os)
}

proof fn lemma_retry_reaches_success(p: RetryPolicy, n: u32, failures: Seq<AttemptOutcome>, u: User)
    requires
        1 <= n,
        n + failures.len() <= p.max_attempts,
        forall|i: int| 0 <= i < failures.len() ==> failures[i] is Failure,
    ensures
        run_retry_from(p, n, failures.push(AttemptOutcome::Success(u))) == RetryStatus::Done(u),
    decreases failures.len(),
{
    let os = failures.push(AttemptOutcome::Success(u));
    if failures.len() == 0 {
        assert(os[0] == AttemptOutcome::Success(u));
    } else {
        assert(os[0] == failures[0]);
        assert(failures[0] is Failure);
        let rest = failures.drop_first();
        assert(os.drop_first() =~= rest.push(AttemptOutcome::Success(u)));
        lemma_retry_reaches_success(p, (n + 1) as u32, rest, u);
    }
}

proof fn lemma_retry_reaches_exhaustion(
    p: RetryPolicy,
    n: u32,
    failures: Seq<AttemptOutcome>,
    e: FetchError,
)
    requires
        1 <= n,
        failures.len() >= 1,
        n + failures.len() - 1 == p.max_attempts,
        forall|i: int| 0 <= i < failures.len() ==> failures[i] is Failure,
        failures.last() == AttemptOutcome::Failure(e),
    ensures
        run_retry_from(p, n, failures) == RetryStatus::Exhausted(e),
    decreases failures.len(),
{
    if failures.len() == 1 {
        assert(failures[0] == AttemptOutcome::Failure(e));
    } else {
        assert(failures[0] is Failure);
        assert(n < p.max_attempts);
        let rest = failures.drop_first();
        assert(rest.last() == failures.last());
        lemma_retry_reaches_exhaustion(p, (n + 1) as u32, rest, e);
    }
}

/// Exhaustion carries the last underlying error: a fetch whose every
/// allowed attempt fails ends `Exhausted` with exactly the error of the
/// final attempt.
pub proof fn lemma_retry_exhausts(p: RetryPolicy, failures: Seq<AttemptOutcome>, e: FetchError)
    requires
        p.wf(),
        failures.len() == p.max_attempts,
        forall|i: int| 0 <= i < failures.len() ==> failures[i] is Failure,
        failures.last() == AttemptOutcome::Failure(e),
    ensures
        run_retry(p, failures) == RetryStatus::Exhausted(e),
{
    lemma_retry_reaches_exhaustion(p, 1, failures, e);
}

/// Retry is transparent to the output: a fetch that fails its first
/// `failures.len()` attempts and then succeeds with record `u` ends `Done`
/// with exactly `u` — the same end a first-attempt success has.
pub proof fn lemma_retry_transparent(p: RetryPolicy, failures: Seq<AttemptOutcome>, u: User)
    requires
        failures.len() + 1 <= p.max_attempts,
        forall|i: int| 0 <= i < failures.len() ==> failures[i] is Failure,
    ensures
        run_retry(p, failures.push(AttemptOutcome::Success(u))) == RetryStatus::Done(u),
        run_retry(p, Seq::empty().push(AttemptOutcome::Success(u))) == RetryStatus::Done(u),
{
    lemma_retry_reaches_success(p, 1, failures, u);
    lemma_retry_reaches_success(p, 1, Seq::empty(), u);
}

} // verus!
