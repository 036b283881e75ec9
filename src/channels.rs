use vstd::prelude::*;
use crate::volume::{trunc_div, DomainError};

verus! {

/// The sum of the channels' raw volumes.
pub open spec fn sum_of(s: Seq<i64>) -> int
    decreases s.len(),
{
    if s.len() == 0 {
        0
    } else {
        sum_of(s.drop_last()) + s.last()
    }
}

/// The mean of the channels' raw volumes, truncated toward zero.
pub open spec fn mean_of(s: Seq<i64>) -> int {
    trunc_div(sum_of(s), s.len() as int)
}

proof fn lemma_sum_bounds(s: Seq<i64>)
    ensures
        -0x8000_0000_0000_0000 * s.len() <= sum_of(s) <= 0x7fff_ffff_ffff_ffff * s.len(),
    decreases s.len(),
{
    if s.len() > 0 {
        lemma_sum_bounds(s.drop_last());
    }
}

/// One raw volume for the whole control: the mean of its channels' raw
/// volumes, truncated toward zero. A control without channels is an error.
pub fn average_volume(volumes: &Vec<i64>) -> (r: Result<i64, DomainError>)
    ensures
        volumes@.len() == 0 <==> r == Err::<i64, DomainError>(DomainError::NoChannels),
        volumes@.len() > 0 ==> r == Ok::<i64, DomainError>(mean_of(volumes@) as i64),
        volumes@.len() > 0 ==> i64::MIN <= mean_of(volumes@) <= i64::MAX,
{
    let n = volumes.len();
    if n == 0 {
        return Err(DomainError::NoChannels);
    }
    let mut sum: i128 = 0;
    let mut i: usize = 0;
    while i < n
        invariant
            i <= n,
            n == volumes@.len(),
            sum as int == sum_of(volumes@.take(i as int)),
        decreases n - i,
    {
        proof {
            lemma_sum_bounds(volumes@.take(i as int));
            assert(volumes@.take(i + 1).drop_last() =~= volumes@.take(i as int));
        }
        sum = sum + volumes[i] as i128;
        i = i + 1;
    }
    assert(volumes@.take(n as int) =~= volumes@);
    let ghost s = sum_of(volumes@);
    proof {
        lemma_sum_bounds(volumes@);
    }
    let len = n as u128;
    let magnitude: u128 = if sum >= 0 {
        sum as u128
    } else {
        (-sum) as u128
    };
    let q = magnitude / len;
    assert(q <= 0x8000_0000_0000_0000 && (sum >= 0 ==> q <= 0x7fff_ffff_ffff_ffff)) by (nonlinear_arith)
        requires
            q == magnitude / len,
            len >= 1,
            sum >= 0 ==> magnitude == s,
            sum < 0 ==> magnitude == -s,
            -0x8000_0000_0000_0000 * len <= s <= 0x7fff_ffff_ffff_ffff * len,
    ;
    if sum >= 0 {
        Ok(q as i64)
    } else {
        Ok((-(q as i128)) as i64)
    }
}

} // verus!
