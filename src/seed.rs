//! Random draws. Every draw comes from rand's thread-local generator.

use vstd::prelude::*;
use rand::Rng;

verus! {

/// A uniformly drawn `i32`.
///
/// Relies on `rand::random::<i32>`, which draws any `i32`; nothing is
/// known of the value.
#[verifier::external_body]
pub fn seed() -> i32 {
    rand::random::<i32>()
}

/// A number drawn uniformly below `n`.
///
/// Relies on `rand::Rng::gen_range` over `0..n`, which returns a value in
/// the range and panics only when the range is empty.
#[verifier::external_body]
pub(crate) fn random_below(n: usize) -> (r: usize)
    requires
        n > 0,
    ensures
        r < n,
{
    rand::thread_rng().gen_range(0..n)
}

/// A number drawn uniformly from `low..=high`.
pub fn randint(low: i32, high: i32) -> (r: i32)
    requires
        low <= high,
        high - low < usize::MAX,
    ensures
        low <= r <= high,
{
    let span = (high as i64 - low as i64 + 1) as usize;
    let d = random_below(span);
    (low as i64 + d as i64) as i32
}

/// An element of `list` picked uniformly.
pub fn choice<T>(list: &Vec<T>) -> (r: &T)
    requires
        list.len() > 0,
    ensures
        exists|i: int| 0 <= i < list.len() && *r == list@[i],
{
    let i = random_below(list.len());
    &list[i]
}

} // verus!
