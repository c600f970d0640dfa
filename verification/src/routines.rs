//! Self-contained micro-routines: a sort of random samples, a closure
//! applied across a buffer, a bulk allocation filled by index, and an
//! in-place increment sweep.  Each is verified not to panic; the random
//! draw and the sort itself go through trusted declarations.

use vstd::prelude::*;

verus! {

/// Relies on `rand::random_range`: a sample from the thread-local generator
/// within the given range; the range here is never empty.
#[verifier::external_body]
fn random_below_million() -> (r: i64)
    ensures
        0 <= r < 1_000_000,
{
    rand::random_range(0i64..1_000_000i64)
}

/// Relies on `<[i64]>::sort`: sorts ascending, keeping the multiset of
/// items.
#[verifier::external_body]
fn sort_i64s(v: &mut Vec<i64>)
    ensures
        final(v)@.len() == old(v)@.len(),
        forall|i: int, j: int| 0 <= i <= j < final(v)@.len() ==> final(v)@[i] <= final(v)@[j],
        final(v)@.to_multiset() == old(v)@.to_multiset(),
{
    v.sort();
}

/// Draws `n` samples below one million and sorts them.
#[verifier::loop_isolation(false)]
pub fn basic_sort(n: i64) {
    let mut data: Vec<i64> = Vec::new();
    let mut i: i64 = 0;
    while i < n
        invariant
            n > 0 ==> 0 <= i <= n,
            forall|j: int| 0 <= j < data@.len() ==> 0 <= #[trigger] data@[j] < 1_000_000,
        decreases n - i,
    {
        data.push(random_below_million());
        i = i + 1;
    }
    sort_i64s(&mut data);
}

/// Fills a buffer with ones and applies an increment closure to every slot.
#[verifier::loop_isolation(false)]
pub fn closure_operation(n: usize) {
    let mut data: Vec<i32> = vec![1; n];
    let closure = |x: i32| -> (r: i32)
        requires
            x < i32::MAX,
        ensures
            r == x + 1,
        { x + 1 };
    let mut i: usize = 0;
    while i < n
        invariant
            i <= n,
            data@.len() == n,
            forall|j: int| 0 <= j < i ==> data@[j] == 2,
            forall|j: int| i <= j < n ==> data@[j] == 1,
        decreases n - i,
    {
        assert(data@[i as int] == 1);
        let incremented = closure(data[i]);
        data[i] = incremented;
        assert(forall|j: int| 0 <= j < i + 1 ==> data@[j] == 2);
        i = i + 1;
    }
    assert(forall|j: int| 0 <= j < n ==> data@[j] == 2);
}

/// Allocates a buffer of `n` zeroes and writes each slot's index into it.
#[verifier::loop_isolation(false)]
pub fn memory_allocation_and_management(n: usize) {
    let mut arr: Vec<i32> = vec![0; n];
    let mut i: usize = 0;
    while i < n
        invariant
            i <= n,
            arr@.len() == n,
        decreases n - i,
    {
        arr[i] = #[verifier::truncate] (i as i32);
        i = i + 1;
    }
}

/// Fills a buffer with ones and increments every slot in place.
#[verifier::loop_isolation(false)]
pub fn iterators(n: usize) {
    let mut data: Vec<i32> = vec![1; n];
    let mut i: usize = 0;
    while i < n
        invariant
            i <= n,
            data@.len() == n,
            forall|j: int| 0 <= j < i ==> data@[j] == 2,
            forall|j: int| i <= j < n ==> data@[j] == 1,
        decreases n - i,
    {
        data[i] = data[i] + 1;
        i = i + 1;
    }
}

} // verus!
