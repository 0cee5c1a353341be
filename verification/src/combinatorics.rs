//! Counting non-pseudoknotted secondary structures.
//!
//! The count of structures over `n` sites with at least `mingap` unpaired
//! sites between the two sides of every pair satisfies the classical
//! recurrence: a structure either leaves the last site unpaired, or pairs it
//! with site `k`, splitting the rest into two independent regions. The counts
//! grow fast, so they are kept as big unsigned integers.

use vstd::prelude::*;

use num_bigint::BigUint;

verus! {

#[verifier::external_type_specification]
#[verifier::external_body]
pub struct ExBigUint(BigUint);

/// The natural number a `num_bigint::BigUint` holds.
pub uninterp spec fn big_value(b: BigUint) -> nat;

/// Relies on `BigUint: From<u32>`: the big integer one.
#[verifier::external_body]
fn big_one() -> (r: BigUint)
    ensures
        big_value(r) == 1,
{
    BigUint::from(1u32)
}

/// Relies on num_bigint's `Add` for `&BigUint`: addition of big unsigned
/// integers.
#[verifier::external_body]
fn big_add(a: &BigUint, b: &BigUint) -> (r: BigUint)
    ensures
        big_value(r) == big_value(*a) + big_value(*b),
{
    a + b
}

/// Relies on num_bigint's `Mul` for `&BigUint`: multiplication of big
/// unsigned integers.
#[verifier::external_body]
fn big_mul(a: &BigUint, b: &BigUint) -> (r: BigUint)
    ensures
        big_value(r) == big_value(*a) * big_value(*b),
{
    a * b
}

/// Relies on num_bigint's `Clone` for `BigUint`: a clone holds the same
/// number.
#[verifier::external_body]
fn big_clone(a: &BigUint) -> (r: BigUint)
    ensures
        big_value(r) == big_value(*a),
{
    a.clone()
}

/// The number of structures over `n` sites, every pair enclosing at least
/// `mingap` sites: one structure when no pair fits, else the structures that
/// leave site `n` unpaired plus, for each admissible partner `k` of site
/// `n`, the product of the counts of the two enclosed regions.
pub open spec fn spec_count(n: int, mingap: int) -> nat
    decreases n, 1int, 0int,
{
    if mingap < 0 || n <= mingap {
        1
    } else {
        spec_count(n - 1, mingap) + spec_count_sum(n, mingap, n - mingap - 1)
    }
}

/// The sum over partners `1 <= k' <= k` of the split products for `n` sites.
pub open spec fn spec_count_sum(n: int, mingap: int, k: int) -> nat
    decreases n, 0int, k,
{
    if k <= 0 || n <= k {
        0
    } else {
        spec_count_sum(n, mingap, k - 1) + spec_count(k - 1, mingap) * spec_count(
            n - k - 1,
            mingap,
        )
    }
}

/// The count of possible non-pseudoknotted secondary structures of length
/// `n` with at least `mingap` unpaired sites between the two sides of every
/// base pair. A negative `mingap` would make the recurrence expand without
/// end, so it is excluded; the length bound keeps the table addressable.
pub fn count_structures(n: i64, mingap: i64) -> (r: BigUint)
    requires
        mingap >= 0,
        n <= 0x7fff_ffff,
    ensures
        big_value(r) == spec_count(n as int, mingap as int),
{
    if n < 0 {
        return big_one();
    }
    let nn = n as usize;
    let mut table: Vec<BigUint> = Vec::new();
    let mut i: usize = 0;
    while i <= nn
        invariant
            0 <= n <= 0x7fff_ffff,
            nn == n,
            mingap >= 0,
            i <= nn + 1,
            table@.len() == i,
            forall|q: int| 0 <= q < i ==> big_value(#[trigger] table@[q]) == spec_count(
                q,
                mingap as int,
            ),
        decreases nn + 1 - i,
    {
        let mut v = big_one();
        if (i as i64) > mingap {
            v = big_clone(&table[i - 1]);
            let mut k: usize = 1;
            proof {
                assert(spec_count_sum(i as int, mingap as int, 0) == 0);
            }
            while (k as i64) < (i as i64) - mingap
                invariant
                    0 <= n <= 0x7fff_ffff,
                    nn == n,
                    mingap >= 0,
                    i <= nn,
                    (i as i64) > mingap,
                    table@.len() == i,
                    forall|q: int| 0 <= q < i ==> big_value(#[trigger] table@[q]) == spec_count(
                        q,
                        mingap as int,
                    ),
                    1 <= k,
                    k as int <= i - mingap,
                    big_value(v) == spec_count(i - 1, mingap as int) + spec_count_sum(
                        i as int,
                        mingap as int,
                        k - 1,
                    ),
                decreases i - mingap - k,
            {
                let w = big_mul(&table[k - 1], &table[i - k - 1]);
                v = big_add(&v, &w);
                proof {
                    assert(spec_count_sum(i as int, mingap as int, k as int) == spec_count_sum(
                        i as int,
                        mingap as int,
                        k - 1,
                    ) + spec_count(k - 1, mingap as int) * spec_count(
                        i - k - 1,
                        mingap as int,
                    ));
                }
                k = k + 1;
            }
            proof {
                assert(big_value(v) == spec_count(i as int, mingap as int));
            }
        }
        table.push(v);
        i = i + 1;
    }
    big_clone(&table[nn])
}

} // verus!
