//! Distances between secondary structures: the mountain metric.
//!
//! A structure's mountain vector is a running height: each opening site
//! raises it by one, each closing site lowers it by one. The distance
//! between two equal-length structures is the sum over sites of the absolute
//! height difference. These sums are computed exactly, in integers; the
//! engine accepts structures of up to `0x7fff_ffff` sites so that no sum can
//! overflow.

use vstd::prelude::*;
use vstd::pervasive::unreached;

verus! {

/// Failures of the metric engine.
#[derive(Debug, Clone, PartialEq, Eq)]
pub enum SecondaryStructureMetricError {
    /// The two structures have different lengths.
    UnequalLength,
}

/// The height change contributed by site `i`: +1 when it opens a pair, -1
/// when it closes one, 0 when unpaired.
pub open spec fn mountain_step(p: Seq<i64>, i: int) -> int {
    if p[i] == 0 {
        0
    } else if p[i] > i {
        1
    } else {
        -1
    }
}

/// The mountain height after the first `n` sites.
pub open spec fn mountain_height(p: Seq<i64>, n: int) -> int
    decreases n,
{
    if n <= 0 {
        0
    } else {
        mountain_height(p, n - 1) + mountain_step(p, n - 1)
    }
}

pub open spec fn int_abs(x: int) -> int {
    if x >= 0 {
        x
    } else {
        -x
    }
}

/// The mountain distance over the first `n` sites: the sum of absolute
/// height differences.
pub open spec fn mountain_dist(p1: Seq<i64>, p2: Seq<i64>, n: int) -> int
    decreases n,
{
    if n <= 0 {
        0
    } else {
        mountain_dist(p1, p2, n - 1) + int_abs(
            mountain_height(p1, n) - mountain_height(p2, n),
        )
    }
}

/// Mountain distance does not depend on the order of its arguments.
pub proof fn lemma_mountain_distance_symmetric(p1: Seq<i64>, p2: Seq<i64>, n: int)
    ensures
        mountain_dist(p1, p2, n) == mountain_dist(p2, p1, n),
    decreases n,
{
    if n > 0 {
        lemma_mountain_distance_symmetric(p1, p2, n - 1);
    }
}

/// The mountain distance of a structure to itself is zero.
pub proof fn lemma_mountain_distance_self_zero(p: Seq<i64>, n: int)
    ensures
        mountain_dist(p, p, n) == 0,
    decreases n,
{
    if n > 0 {
        lemma_mountain_distance_self_zero(p, n - 1);
    }
}

/// The mountain vector of a structure: entry `i` is the height after the
/// first `i + 1` sites.
pub fn get_mountain_vector(paired: &Vec<i64>) -> (r: Vec<i64>)
    requires
        paired@.len() < 0x8000_0000_0000_0000,
    ensures
        r@.len() == paired@.len(),
        forall|i: int| 0 <= i < r@.len() ==> #[trigger] r@[i] == mountain_height(paired@, i + 1),
{
    let ghost p = paired@;
    let n = paired.len();
    let mut r: Vec<i64> = Vec::new();
    let mut h: i64 = 0;
    let mut i: usize = 0;
    while i < n
        invariant
            p == paired@,
            n == p.len(),
            p.len() < 0x8000_0000_0000_0000,
            i <= n,
            r@.len() == i,
            h == mountain_height(p, i as int),
            -(i as int) <= h <= i as int,
            forall|q: int| 0 <= q < i ==> #[trigger] r@[q] == mountain_height(p, q + 1),
        decreases n - i,
    {
        let v = paired[i];
        if v != 0 {
            if v > (i as i64) {
                h = h + 1;
            } else {
                h = h - 1;
            }
        }
        r.push(h);
        i = i + 1;
    }
    r
}

/// The mountain distance between two structures of one length; structures of
/// different lengths have no distance.
pub fn get_mountain_distance(paired1: &Vec<i64>, paired2: &Vec<i64>) -> (r: Result<
    u64,
    SecondaryStructureMetricError,
>)
    requires
        paired1@.len() <= 0x7fff_ffff,
        paired2@.len() <= 0x7fff_ffff,
    ensures
        r is Ok <==> paired1@.len() == paired2@.len(),
        r is Ok ==> r->Ok_0 == mountain_dist(paired1@, paired2@, paired1@.len() as int),
        r is Err ==> r->Err_0 == SecondaryStructureMetricError::UnequalLength,
{
    let ghost p1 = paired1@;
    let ghost p2 = paired2@;
    if paired1.len() != paired2.len() {
        return Err(SecondaryStructureMetricError::UnequalLength);
    }
    let n = paired1.len();
    let m1 = get_mountain_vector(paired1);
    let m2 = get_mountain_vector(paired2);
    let mut d: u64 = 0;
    let mut i: usize = 0;
    while i < n
        invariant
            p1 == paired1@,
            p2 == paired2@,
            n == p1.len() == p2.len(),
            p1.len() <= 0x7fff_ffff,
            i <= n,
            m1@.len() == n,
            m2@.len() == n,
            forall|q: int| 0 <= q < n ==> #[trigger] m1@[q] == mountain_height(p1, q + 1),
            forall|q: int| 0 <= q < n ==> #[trigger] m2@[q] == mountain_height(p2, q + 1),
            d == mountain_dist(p1, p2, i as int),
            d <= 0x1_0000_0000u64 * (i as u64),
        decreases n - i,
    {
        proof {
            lemma_mountain_height_bound(p1, i as int + 1);
            lemma_mountain_height_bound(p2, i as int + 1);
        }
        let a = m1[i];
        let b = m2[i];
        let diff: u64 = if a >= b {
            (a - b) as u64
        } else {
            (b - a) as u64
        };
        d = d + diff;
        i = i + 1;
    }
    Ok(d)
}

/// A mountain height never exceeds the number of sites summed.
proof fn lemma_mountain_height_bound(p: Seq<i64>, n: int)
    requires
        n >= 0,
    ensures
        -n <= mountain_height(p, n),
        mountain_height(p, n) <= n,
    decreases n,
{
    if n > 0 {
        lemma_mountain_height_bound(p, n - 1);
    }
}

/// How many leading sites of the maximally paired structure are paired: half
/// the length, less one for even lengths so that the two central sites stay
/// unpaired.
pub open spec fn star_upper(len: int) -> int {
    len / 2 - ((len + 1) % 2)
}

/// The paired-sites array of the maximally paired, maximally nested
/// structure: site `q` pairs with site `len - 1 - q` in the outer region and
/// is unpaired in the middle.
pub open spec fn star_val(len: int, q: int) -> i64 {
    if q < star_upper(len) || q >= len - star_upper(len) {
        (len - q) as i64
    } else {
        0
    }
}

/// The maximally paired, maximally nested structure of a given length: the
/// first sites pair with the last sites, innermost pairs leaving the centre
/// unpaired.
pub fn get_structure_star(len: i64) -> (r: Vec<i64>)
    requires
        0 <= len <= 0x7fff_ffff,
    ensures
        r@.len() == len,
        forall|q: int| 0 <= q < len ==> #[trigger] r@[q] == star_val(len as int, q),
{
    let n = len as usize;
    let mut r: Vec<i64> = Vec::new();
    while r.len() < n
        invariant
            r@.len() <= n,
            forall|q: int| 0 <= q < r@.len() ==> #[trigger] r@[q] == 0,
        decreases n - r@.len(),
    {
        r.push(0);
    }
    if len == 0 {
        return r;
    }
    let upper_i64 = len / 2 - ((len + 1) % 2);
    let upper = upper_i64 as usize;
    proof {
        assert(upper_i64 == star_upper(len as int));
        assert(0 <= star_upper(len as int) && 2 * star_upper(len as int) < len);
    }
    let mut i: usize = 0;
    while i < upper
        invariant
            r@.len() == n,
            n == len,
            0 <= len <= 0x7fff_ffff,
            upper == star_upper(len as int),
            2 * upper < n,
            i <= upper,
            forall|q: int|
                0 <= q < n ==> #[trigger] r@[q] == (if q < i || q >= n - i {
                    star_val(len as int, q)
                } else {
                    0i64
                }),
        decreases upper - i,
    {
        let j = n - i - 1;
        r[i] = len - (i as i64);
        r[j] = (i as i64) + 1;
        proof {
            assert(star_val(len as int, i as int) == len - i);
            assert(star_val(len as int, j as int) == len - j == i + 1);
        }
        i = i + 1;
    }
    proof {
        assert forall|q: int| 0 <= q < n implies #[trigger] r@[q] == star_val(len as int, q) by {
            if upper <= q < n - upper {
                assert(star_val(len as int, q) == 0);
            }
        }
    }
    r
}

/// The structure of a given length with every site unpaired.
pub fn get_structure_zero(len: i64) -> (r: Vec<i64>)
    requires
        0 <= len <= 0x7fff_ffff,
    ensures
        r@.len() == len,
        forall|q: int| 0 <= q < len ==> #[trigger] r@[q] == 0,
{
    let n = len as usize;
    let mut r: Vec<i64> = Vec::new();
    while r.len() < n
        invariant
            r@.len() <= n,
            forall|q: int| 0 <= q < r@.len() ==> #[trigger] r@[q] == 0,
        decreases n - r@.len(),
    {
        r.push(0);
    }
    r
}

/// The largest mountain distance any two structures of the given length can
/// have: the distance between the maximally paired structure and the fully
/// unpaired one.
pub fn get_mountain_diameter(len: i64) -> (r: u64)
    requires
        0 <= len <= 0x7fff_ffff,
    ensures
        r == mountain_dist(
            Seq::new(len as nat, |q: int| star_val(len as int, q)),
            Seq::new(len as nat, |q: int| 0i64),
            len as int,
        ),
{
    let star = get_structure_star(len);
    let zero = get_structure_zero(len);
    let d = get_mountain_distance(&star, &zero);
    proof {
        let s1 = Seq::new(len as nat, |q: int| star_val(len as int, q));
        let s2 = Seq::new(len as nat, |q: int| 0i64);
        assert(star@ =~= s1);
        assert(zero@ =~= s2);
    }
    match d {
        Ok(v) => v,
        Err(_) => unreached(),
    }
}

} // verus!
