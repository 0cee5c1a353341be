//! The mathematical model of bracket strings and paired-sites arrays.
//!
//! A paired-sites array `p` stores, at index `i`, the 1-based position of the
//! partner of site `i`, or `0` when site `i` is unpaired. A bracket string
//! denotes such an array through per-class bracket matching: within each
//! bracket class, a closing bracket matches the nearest unclosed opening
//! bracket of that class.

use vstd::prelude::*;

use crate::alphabet::{
    is_left_bracket_char, is_right_bracket_char, left_class, left_symbol, right_class,
    right_symbol, NUM_BRACKET_CLASSES,
};

verus! {

/// Count of left brackets of class `k` among the first `n` characters of `s`.
pub open spec fn opens_before(s: Seq<char>, k: int, n: int) -> int
    decreases n,
{
    if n <= 0 {
        0
    } else {
        opens_before(s, k, n - 1) + if left_class(s[n - 1]) == k {
            1int
        } else {
            0int
        }
    }
}

/// Count of right brackets of class `k` among the first `n` characters of `s`.
pub open spec fn closes_before(s: Seq<char>, k: int, n: int) -> int
    decreases n,
{
    if n <= 0 {
        0
    } else {
        closes_before(s, k, n - 1) + if right_class(s[n - 1]) == k {
            1int
        } else {
            0int
        }
    }
}

/// How many class-`k` opening brackets among the first `n` characters are not
/// yet closed there (may be negative for malformed prefixes).
pub open spec fn surplus(s: Seq<char>, k: int, n: int) -> int {
    opens_before(s, k, n) - closes_before(s, k, n)
}

/// Every closing bracket among the first `n` characters has a pending opening
/// bracket of its own class to its left.
pub open spec fn closes_matched_before(s: Seq<char>, n: int) -> bool {
    forall|m: int|
        0 <= m < n && is_right_bracket_char(#[trigger] s[m]) ==> surplus(s, right_class(s[m]), m)
            >= 1
}

/// A balanced bracket string: each closing bracket has a pending opening
/// bracket of its class, and no opening bracket stays unclosed.
pub open spec fn balanced(s: Seq<char>) -> bool {
    &&& closes_matched_before(s, s.len() as int)
    &&& forall|k: int|
        0 <= k < NUM_BRACKET_CLASSES ==> #[trigger] surplus(s, k, s.len() as int) == 0
}

/// The first position at or after `i` holding a closing bracket with no
/// pending opening bracket of its class, or -1 when there is none.
pub open spec fn first_unmatched_close_from(s: Seq<char>, i: int) -> int
    decreases s.len() - i,
{
    if i < 0 || i >= s.len() {
        -1
    } else if is_right_bracket_char(s[i]) && surplus(s, right_class(s[i]), i) < 1 {
        i
    } else {
        first_unmatched_close_from(s, i + 1)
    }
}

/// The first position of a closing bracket with no pending opening bracket of
/// its class, or -1 when every closing bracket is matched.
pub open spec fn first_unmatched_close(s: Seq<char>) -> int {
    first_unmatched_close_from(s, 0)
}

/// The least class with brackets left unclosed at the end of `s`, or -1.
pub open spec fn least_open_class_from(s: Seq<char>, k: int) -> int
    decreases NUM_BRACKET_CLASSES - k,
{
    if k < 0 || k >= NUM_BRACKET_CLASSES {
        -1
    } else if surplus(s, k, s.len() as int) != 0 {
        k
    } else {
        least_open_class_from(s, k + 1)
    }
}

/// The least class with brackets left unclosed at the end of `s`, or -1.
pub open spec fn least_open_class(s: Seq<char>) -> int {
    least_open_class_from(s, 0)
}

/// Position `j` holds an opening bracket of class `k` that is still unclosed
/// after the first `n` characters: the class-`k` depth never returns below
/// its level just after `j`.
pub open spec fn is_unclosed_open_in(s: Seq<char>, k: int, j: int, n: int) -> bool {
    &&& 0 <= j < n
    &&& left_class(s[j]) == k
    &&& forall|m: int| j < m <= n ==> #[trigger] surplus(s, k, m) >= surplus(s, k, j + 1)
}

/// Position `j` holds an opening bracket of class `k` that the whole string
/// never closes.
pub open spec fn is_unclosed_open(s: Seq<char>, k: int, j: int) -> bool {
    is_unclosed_open_in(s, k, j, s.len() as int)
}

/// A well-formed paired-sites array: partners are mutual, in range, and no
/// site pairs with itself.
pub open spec fn valid_pairing(p: Seq<i64>) -> bool {
    forall|i: int|
        0 <= i < p.len() ==> 0 <= #[trigger] p[i] <= p.len() && (p[i] != 0 ==> p[i] != i + 1
            && p[p[i] - 1] == i + 1)
}

/// Site `i` opens a pair: its partner lies strictly to its right.
pub open spec fn opens_at(p: Seq<i64>, i: int) -> bool {
    0 <= i < p.len() && p[i] > i + 1
}

/// Site `i` closes a pair: its partner lies strictly to its left.
pub open spec fn closes_at(p: Seq<i64>, i: int) -> bool {
    0 <= i < p.len() && 1 <= p[i] < i + 1
}

/// `p` is the pairing denoted by the bracket string `s`: partners are mutual,
/// exactly the bracket positions are paired, each pair opens with a left
/// bracket and closes with the right bracket of the same class, and pairs of
/// one class never cross.
pub open spec fn decoded_pairing(s: Seq<char>, p: Seq<i64>) -> bool {
    &&& p.len() == s.len()
    &&& valid_pairing(p)
    &&& forall|i: int|
        0 <= i < p.len() ==> ((#[trigger] p[i] == 0) <==> (!is_left_bracket_char(s[i])
            && !is_right_bracket_char(s[i])))
    &&& forall|i: int|
        #[trigger] opens_at(p, i) ==> is_left_bracket_char(s[i]) && right_class(s[p[i] - 1])
            == left_class(s[i])
    &&& forall|i1: int, i2: int|
        #[trigger] opens_at(p, i1) && #[trigger] opens_at(p, i2) && left_class(s[i1])
            == left_class(s[i2]) && i1 < i2 && i2 < p[i1] - 1 ==> p[i2] < p[i1]
}

/// Some pair of class `k2` (by its opening symbol in `t`) is open at `q` and
/// would cross the pair opening at `q`: it closes inside the new pair's span.
pub open spec fn crossing_open_pair(t: Seq<char>, p: Seq<i64>, q: int, k2: int) -> bool {
    exists|a: int|
        #[trigger] opens_at(p, a) && a < q && left_class(t[a]) == k2 && q < p[a] - 1 && p[a] - 1
            < p[q] - 1
}

/// The class assignment of `t` is greedy first-fit for `p`: a pair takes a
/// class only when every lower class holds an open pair it would cross.
pub open spec fn greedy_first_fit(t: Seq<char>, p: Seq<i64>) -> bool {
    forall|q: int, k2: int|
        opens_at(p, q) && 0 <= k2 < left_class(t[q]) ==> #[trigger] crossing_open_pair(t, p, q, k2)
}

/// Two pairs of `p` cross: the second opens inside the first and closes
/// outside it.
pub open spec fn has_crossing(p: Seq<i64>) -> bool {
    exists|i: int, j: int|
        #[trigger] opens_at(p, i) && #[trigger] opens_at(p, j) && i < j && j < p[i] - 1 && p[i] - 1
            < p[j] - 1
}

/// In a decoded pairing, a site holding a left bracket never closes a pair,
/// so it opens one.
proof fn lemma_left_site_opens(s: Seq<char>, p: Seq<i64>, a: int)
    requires
        decoded_pairing(s, p),
        0 <= a < p.len(),
        is_left_bracket_char(s[a]),
    ensures
        opens_at(p, a),
{
    assert(p[a] != 0);
    if !opens_at(p, a) {
        assert(closes_at(p, a));
        let o = p[a] - 1;
        assert(p[o] == a + 1);
        assert(opens_at(p, o));
        assert(right_class(s[a]) == left_class(s[o]) >= 0);
    }
}

/// In a decoded pairing, a site holding a right bracket closes a pair.
proof fn lemma_right_site_closes(s: Seq<char>, p: Seq<i64>, j: int)
    requires
        decoded_pairing(s, p),
        0 <= j < p.len(),
        is_right_bracket_char(s[j]),
    ensures
        closes_at(p, j),
{
    assert(p[j] != 0);
    if opens_at(p, j) {
        assert(left_class(s[j]) >= 0);
    }
}

/// Two decoded pairings of one string give the closer at `j` partners that
/// cannot differ in one direction: `p` never pairs `j` further left than `q`.
proof fn lemma_closer_partner_ge(s: Seq<char>, p: Seq<i64>, q: Seq<i64>, j: int)
    requires
        decoded_pairing(s, p),
        decoded_pairing(s, q),
        closes_at(p, j),
        closes_at(q, j),
    ensures
        p[j] >= q[j],
    decreases j, 0int,
{
    let ip = p[j] - 1;
    let iq = q[j] - 1;
    if ip < iq {
        assert(p[ip] == j + 1 && q[iq] == j + 1);
        assert(opens_at(p, ip) && opens_at(q, iq));
        assert(is_left_bracket_char(s[iq]));
        lemma_left_site_opens(s, p, iq);
        let jq = p[iq] - 1;
        assert(p[jq] == iq + 1);
        assert(jq != j) by {
            if jq == j {
                assert(p[j] == iq + 1);
            }
        }
        if jq < j {
            lemma_closer_partner_agree(s, p, q, jq);
            assert(q[jq] == iq + 1);
            assert(q[iq] == jq + 1);
        } else {
            // p would hold the crossing pairs (ip, j) and (iq, jq)
            assert(right_class(s[j]) == left_class(s[ip]));
            assert(right_class(s[j]) == left_class(s[iq]));
            assert(opens_at(p, ip) && opens_at(p, iq) && ip < iq && iq < p[ip] - 1);
            assert(p[iq] < p[ip]);
        }
        assert(false);
    }
}

/// Two decoded pairings of one string agree on the partner of every closer.
proof fn lemma_closer_partner_agree(s: Seq<char>, p: Seq<i64>, q: Seq<i64>, j: int)
    requires
        decoded_pairing(s, p),
        decoded_pairing(s, q),
        closes_at(p, j),
    ensures
        p[j] == q[j],
    decreases j, 1int,
{
    let o = p[j] - 1;
    assert(p[o] == j + 1 && opens_at(p, o));
    assert(is_right_bracket_char(s[j])) by {
        assert(right_class(s[j]) == left_class(s[o]));
    }
    lemma_right_site_closes(s, q, j);
    lemma_closer_partner_ge(s, p, q, j);
    lemma_closer_partner_ge(s, q, p, j);
}

/// A bracket string denotes at most one paired-sites array. Together with
/// the codec contracts this is the round-trip law: an encoded array, decoded
/// again, comes back unchanged.
pub proof fn lemma_decoded_pairing_unique(s: Seq<char>, p: Seq<i64>, q: Seq<i64>)
    requires
        decoded_pairing(s, p),
        decoded_pairing(s, q),
    ensures
        p == q,
{
    assert forall|idx: int| 0 <= idx < p.len() implies p[idx] == q[idx] by {
        if p[idx] != 0 {
            if closes_at(p, idx) {
                lemma_closer_partner_agree(s, p, q, idx);
            } else {
                assert(opens_at(p, idx));
                let j2 = p[idx] - 1;
                assert(p[j2] == idx + 1);
                assert(closes_at(p, j2));
                lemma_closer_partner_agree(s, p, q, j2);
                assert(q[j2] == idx + 1);
                assert(q[idx] == j2 + 1);
            }
        } else {
            assert(q[idx] == 0);
        }
    }
    assert(p =~= q);
}

/// Decoding a bracket string over one class (`(` and `)` alone, besides
/// unpaired sites) never yields a pseudoknotted structure: pairs of a single
/// class cannot cross.
pub proof fn lemma_single_class_not_crossing(s: Seq<char>, p: Seq<i64>)
    requires
        decoded_pairing(s, p),
        forall|i: int|
            0 <= i < s.len() ==> left_class(#[trigger] s[i]) <= 0 && right_class(s[i]) <= 0,
    ensures
        !has_crossing(p),
{
    if has_crossing(p) {
        let (i, j) = choose|i: int, j: int|
            #[trigger] opens_at(p, i) && #[trigger] opens_at(p, j) && i < j && j < p[i] - 1 && p[i]
                - 1 < p[j] - 1;
        assert(left_class(s[i]) == 0 && left_class(s[j]) == 0);
        assert(p[j] < p[i]);
    }
}

/// Unpaired sites are written as the unpaired marker.
pub open spec fn dots_unpaired(t: Seq<char>, p: Seq<i64>) -> bool {
    forall|i: int| 0 <= i < p.len() && #[trigger] p[i] == 0 ==> t[i] == '.'
}

proof fn lemma_greedy_char_agrees(t1: Seq<char>, t2: Seq<char>, p: Seq<i64>, q: int)
    requires
        decoded_pairing(t1, p),
        greedy_first_fit(t1, p),
        dots_unpaired(t1, p),
        decoded_pairing(t2, p),
        greedy_first_fit(t2, p),
        dots_unpaired(t2, p),
        0 <= q < p.len(),
    ensures
        t1[q] == t2[q],
    decreases q,
{
    crate::alphabet::lemma_alphabet_consistent();
    if p[q] == 0 {
    } else if closes_at(p, q) {
        let o = p[q] - 1;
        assert(p[o] == q + 1 && opens_at(p, o));
        lemma_greedy_char_agrees(t1, t2, p, o);
        assert(right_class(t1[q]) == left_class(t1[o]));
        assert(right_class(t2[q]) == left_class(t2[o]));
        assert(is_right_bracket_char(t1[q]) && is_right_bracket_char(t2[q]));
        assert(t1[q] == right_symbol(right_class(t1[q])));
        assert(t2[q] == right_symbol(right_class(t2[q])));
    } else {
        assert(opens_at(p, q));
        let k1 = left_class(t1[q]);
        let k2 = left_class(t2[q]);
        assert(k1 >= 0 && k2 >= 0);
        if k1 < k2 {
            assert(crossing_open_pair(t2, p, q, k1));
            let a = choose|a: int|
                #[trigger] opens_at(p, a) && a < q && left_class(t2[a]) == k1 && q < p[a] - 1
                    && p[a] - 1 < p[q] - 1;
            lemma_greedy_char_agrees(t1, t2, p, a);
            assert(left_class(t1[a]) == k1 == left_class(t1[q]));
            assert(p[q] < p[a]);
            assert(false);
        }
        if k2 < k1 {
            assert(crossing_open_pair(t1, p, q, k2));
            let a = choose|a: int|
                #[trigger] opens_at(p, a) && a < q && left_class(t1[a]) == k2 && q < p[a] - 1
                    && p[a] - 1 < p[q] - 1;
            lemma_greedy_char_agrees(t1, t2, p, a);
            assert(left_class(t2[a]) == k2 == left_class(t2[q]));
            assert(p[q] < p[a]);
            assert(false);
        }
        assert(t1[q] == left_symbol(k1));
        assert(t2[q] == left_symbol(k2));
    }
}

/// The greedy encoding is canonical: a pairing has at most one dot-bracket
/// string that writes unpaired sites as dots and assigns classes greedily
/// first-fit. Together with the encoder's contract, the encoder's output is
/// that one string.
pub proof fn lemma_greedy_encoding_unique(t1: Seq<char>, t2: Seq<char>, p: Seq<i64>)
    requires
        decoded_pairing(t1, p),
        greedy_first_fit(t1, p),
        dots_unpaired(t1, p),
        decoded_pairing(t2, p),
        greedy_first_fit(t2, p),
        dots_unpaired(t2, p),
    ensures
        t1 == t2,
{
    assert forall|q: int| 0 <= q < p.len() implies t1[q] == t2[q] by {
        lemma_greedy_char_agrees(t1, t2, p, q);
    }
    assert(t1 =~= t2);
}

/// Bracket counts over the first `m` characters depend on those characters
/// alone.
pub proof fn lemma_counts_prefix_agree(s1: Seq<char>, s2: Seq<char>, k: int, m: int)
    requires
        m <= s1.len(),
        m <= s2.len(),
        forall|q: int| 0 <= q < m ==> s1[q] == s2[q],
    ensures
        opens_before(s1, k, m) == opens_before(s2, k, m),
        closes_before(s1, k, m) == closes_before(s2, k, m),
    decreases m,
{
    if m > 0 {
        lemma_counts_prefix_agree(s1, s2, k, m - 1);
    }
}

proof fn lemma_no_unmatched_close_from(s: Seq<char>, i: int)
    requires
        closes_matched_before(s, s.len() as int),
        i >= 0,
    ensures
        first_unmatched_close_from(s, i) == -1,
    decreases s.len() - i,
{
    if i < s.len() {
        lemma_no_unmatched_close_from(s, i + 1);
    }
}

/// When every closing bracket is matched there is no unmatched-close position.
pub proof fn lemma_no_unmatched_close(s: Seq<char>)
    requires
        closes_matched_before(s, s.len() as int),
    ensures
        first_unmatched_close(s) == -1,
{
    lemma_no_unmatched_close_from(s, 0);
}

proof fn lemma_first_unmatched_close_from(s: Seq<char>, i: int, n: int)
    requires
        0 <= i <= n < s.len(),
        closes_matched_before(s, n),
        is_right_bracket_char(s[n]),
        surplus(s, right_class(s[n]), n) < 1,
    ensures
        first_unmatched_close_from(s, i) == n,
    decreases n - i,
{
    if i < n {
        lemma_first_unmatched_close_from(s, i + 1, n);
    }
}

/// The first closing bracket whose class has no pending opening bracket is
/// the unmatched-close position.
pub proof fn lemma_first_unmatched_close_at(s: Seq<char>, n: int)
    requires
        0 <= n < s.len(),
        closes_matched_before(s, n),
        is_right_bracket_char(s[n]),
        surplus(s, right_class(s[n]), n) < 1,
    ensures
        first_unmatched_close(s) == n,
{
    lemma_first_unmatched_close_from(s, 0, n);
}

proof fn lemma_least_open_class_from(s: Seq<char>, i: int, k: int)
    requires
        0 <= i <= k < NUM_BRACKET_CLASSES,
        forall|k2: int| 0 <= k2 < k ==> #[trigger] surplus(s, k2, s.len() as int) == 0,
        surplus(s, k, s.len() as int) != 0,
    ensures
        least_open_class_from(s, i) == k,
    decreases k - i,
{
    if i < k {
        lemma_least_open_class_from(s, i + 1, k);
    }
}

/// The least class whose brackets stay open at the end of `s`.
pub proof fn lemma_least_open_class_at(s: Seq<char>, k: int)
    requires
        0 <= k < NUM_BRACKET_CLASSES,
        forall|k2: int| 0 <= k2 < k ==> #[trigger] surplus(s, k2, s.len() as int) == 0,
        surplus(s, k, s.len() as int) != 0,
    ensures
        least_open_class(s) == k,
{
    lemma_least_open_class_from(s, 0, k);
}

} // verus!
