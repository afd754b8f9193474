//! Decisions of the fault-injection and load-testing harness.

use vstd::prelude::*;

use rand::Rng;

verus! {

/// Calls `rand::thread_rng().gen_range(min..=max)`. Trusted: the value lies
/// in the inclusive range; which value it is depends on the thread's random
/// generator. `gen_range` panics on an empty range, which `requires` rules out.
#[verifier::external_body]
fn random_between(min: u64, max: u64) -> (r: u64)
    requires
        min <= max,
    ensures
        min <= r <= max,
{
    rand::thread_rng().gen_range(min..=max)
}

/// The artificial latency, in milliseconds, that a faulty source waits
/// before answering, given the configured `(min, max)` range: none when the
/// maximum is 0, the minimum when both bounds agree, and otherwise a random
/// value within the range.
pub fn injected_delay(latency_range: (u64, u64)) -> (r: Option<u64>)
    requires
        latency_range.1 == 0 || latency_range.0 <= latency_range.1,
    ensures
        r is None <==> latency_range.1 == 0,
        r matches Some(d) ==> latency_range.0 <= d <= latency_range.1,
        latency_range.1 > 0 && latency_range.0 == latency_range.1 ==> r == Some(latency_range.0),
{
    let (min, max) = latency_range;
    if max > 0 {
        let delay = if min == max {
            min
        } else {
            random_between(min, max)
        };
        Some(delay)
    } else {
        None
    }
}

/// The sum of `latencies`.
pub open spec fn latency_sum(latencies: Seq<u128>) -> int
    decreases latencies.len(),
{
    if latencies.len() == 0 {
        0
    } else {
        latency_sum(latencies.drop_last()) + latencies.last()
    }
}

proof fn lemma_latency_sum_prefix(latencies: Seq<u128>, i: int)
    requires
        0 <= i <= latencies.len(),
    ensures
        latency_sum(latencies.take(i)) <= latency_sum(latencies),
    decreases latencies.len() - i,
{
    if i < latencies.len() {
        lemma_latency_sum_prefix(latencies, i + 1);
        assert(latencies.take(i + 1).drop_last() =~= latencies.take(i));
    } else {
        assert(latencies.take(i) =~= latencies);
    }
}

/// The total of the recorded request latencies, or `None` where it does not
/// fit in 128 bits.
pub fn total_latency(latencies: &Vec<u128>) -> (r: Option<u128>)
    ensures
        latency_sum(latencies@) <= u128::MAX ==> r == Some(latency_sum(latencies@) as u128),
        latency_sum(latencies@) > u128::MAX ==> r is None,
{
    let mut total: u128 = 0;
    let mut i: usize = 0;
    while i < latencies.len()
        invariant
            i <= latencies@.len(),
            total == latency_sum(latencies@.take(i as int)),
        decreases latencies@.len() - i,
    {
        proof {
            assert(latencies@.take(i as int + 1).drop_last() =~= latencies@.take(i as int));
        }
        match total.checked_add(latencies[i]) {
            Some(t) => {
                total = t;
            },
            None => {
                proof {
                    lemma_latency_sum_prefix(latencies@, i as int + 1);
                }
                return None;
            },
        }
        i += 1;
    }
    proof {
        assert(latencies@.take(i as int) =~= latencies@);
    }
    Some(total)
}

} // verus!
