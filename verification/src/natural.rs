//! Natural ("version") ordering of names, as the `natord` crate defines it.

use vstd::prelude::*;
use crate::order::Order;

verus! {

/// The result of `natord::compare` on two strings.
pub uninterp spec fn natural_order(a: Seq<char>, b: Seq<char>) -> Order;

/// Natural comparison of two strings.
///
/// Trusted: wraps `natord::compare`, a function of its two arguments
/// alone; its algorithm (skipping whitespace, comparing digit runs
/// numerically, other characters by code point) is not restated, and in
/// particular nothing is claimed about it being a total order.
#[verifier::external_body]
fn natord_compare(a: &str, b: &str) -> (r: Order)
    ensures
        r == natural_order(a@, b@),
{
    match natord::compare(a, b) {
        core::cmp::Ordering::Less => Order::Less,
        core::cmp::Ordering::Equal => Order::Equal,
        core::cmp::Ordering::Greater => Order::Greater,
    }
}

/// Compares two names in natural ("version") order, so that `file2`
/// sorts before `file10`.
pub fn compare_natural(a: &str, b: &str) -> (r: Order)
    ensures
        r == natural_order(a@, b@),
{
    natord_compare(a, b)
}

} // verus!
