//! Secondary structures: the paired-sites representation, the dot-bracket
//! codec and the pseudoknot classifier.

use vstd::prelude::*;

use crate::alphabet::{
    is_left_bracket_char, is_right_bracket_char, left_class, left_class_of, left_symbol,
    left_symbol_of, right_class, right_class_of, right_symbol, right_symbol_of,
    NUM_BRACKET_CLASSES,
};
use crate::model::{
    balanced, closes_at, closes_matched_before, crossing_open_pair, decoded_pairing,
    dots_unpaired, first_unmatched_close, greedy_first_fit, has_crossing, is_unclosed_open,
    is_unclosed_open_in, least_open_class, lemma_counts_prefix_agree,
    lemma_first_unmatched_close_at, lemma_least_open_class_at, lemma_no_unmatched_close, opens_at,
    surplus, valid_pairing,
};
use crate::text::{chars_to_string, str_to_chars};

verus! {

/// Failures of the structure codec and classifier, each reported to the
/// caller as a typed value.
#[derive(Debug, Clone, PartialEq)]
pub enum StructureParseError {
    /// A closing bracket had no pending opening bracket of its class.
    MissingLeftParentheses { left: char, right: char, pos: usize },
    /// An opening bracket was never closed.
    MissingRightParentheses { left: char, right: char, pos: usize },
    /// A character is neither a bracket nor the unpaired marker.
    BracketTypeNotRecognised { c: char },
    /// Encoding needed more simultaneously crossing classes than the
    /// alphabet provides.
    InsufficientBracketTypes,
    /// The classifier saw a closing site with no opening site left.
    InputConsumed,
    /// The classifier finished with opening sites left unconsumed.
    InputNotConsumed,
    /// A multi-line format did not continue as announced.
    ExpectedLine { msg: String },
}

proof fn lemma_surplus_step(s: Seq<char>, k: int, n: int)
    requires
        0 <= n < s.len(),
    ensures
        surplus(s, k, n + 1) == surplus(s, k, n) + (if left_class(s[n]) == k {
            1int
        } else {
            0int
        }) - (if right_class(s[n]) == k {
            1int
        } else {
            0int
        }),
{
}

/// The stack of class `k` holds exactly the still-unclosed opening brackets
/// of that class among the first `n` characters, in increasing order, the
/// entry at depth `d` being the one that raised the class depth to `d + 1`.
spec fn stack_wf(s: Seq<char>, k: int, st: Seq<usize>, n: int) -> bool {
    &&& st.len() == surplus(s, k, n)
    &&& forall|d: int|
        0 <= d < st.len() ==> is_unclosed_open_in(s, k, #[trigger] st[d] as int, n) && surplus(
            s,
            k,
            st[d] as int + 1,
        ) == d + 1
    &&& forall|d1: int, d2: int| 0 <= d1 < d2 < st.len() ==> #[trigger] st[d1] < #[trigger] st[d2]
    &&& forall|j: int| is_unclosed_open_in(s, k, j, n) ==> st.contains(j as usize)
}

/// Everything the decoding loop preserves: per-class stack shape, the part of
/// the pairing already fixed, and the facts that make the final contract.
spec fn decode_inv(s: Seq<char>, p: Seq<i64>, sts: Seq<Vec<usize>>, n: int) -> bool {
    &&& sts.len() == NUM_BRACKET_CLASSES
    &&& 0 <= n <= s.len()
    &&& p.len() == s.len()
    &&& closes_matched_before(s, n)
    &&& forall|k: int|
        0 <= k < NUM_BRACKET_CLASSES ==> stack_wf(s, k, (#[trigger] sts[k])@, n)
    &&& forall|k: int, d: int|
        0 <= k < NUM_BRACKET_CLASSES && 0 <= d < sts[k]@.len() ==> p[#[trigger] sts[k]@[d] as int]
            == 0
    &&& forall|q: int| n <= q < p.len() ==> #[trigger] p[q] == 0
    &&& forall|q: int|
        0 <= q < n && #[trigger] p[q] != 0 ==> 1 <= p[q] <= n && p[p[q] - 1] == q + 1 && p[q] != q
            + 1
    &&& forall|q: int| 0 <= q < n && is_right_bracket_char(#[trigger] s[q]) ==> p[q] != 0
    &&& forall|q: int|
        0 <= q < n && !is_left_bracket_char(#[trigger] s[q]) && !is_right_bracket_char(s[q])
            ==> p[q] == 0
    &&& forall|q: int|
        0 <= q < n && is_left_bracket_char(#[trigger] s[q]) && p[q] == 0 ==> sts[left_class(
            s[q],
        )]@.contains(q as usize)
    &&& forall|q: int|
        #[trigger] opens_at(p, q) ==> q < n && is_left_bracket_char(s[q]) && right_class(
            s[p[q] - 1],
        ) == left_class(s[q])
    &&& forall|k: int, d: int, q: int|
        0 <= k < NUM_BRACKET_CLASSES && 0 <= d < sts[k]@.len() && #[trigger] opens_at(p, q)
            && left_class(s[q]) == k ==> (((#[trigger] sts[k]@[d]) as int) < q || ((sts[k]@[d]) as int)
            > p[q] - 1)
    &&& forall|i1: int, i2: int|
        #[trigger] opens_at(p, i1) && #[trigger] opens_at(p, i2) && left_class(s[i1])
            == left_class(s[i2]) && i1 < i2 && i2 < p[i1] - 1 ==> p[i2] < p[i1]
}

/// Decodes a vector of dot-bracket characters into a paired-sites array.
pub(crate) fn decode_chars(cs: &Vec<char>) -> (r: Result<Vec<i64>, StructureParseError>)
    requires
        cs@.len() < 0x8000_0000_0000_0000,
    ensures
        r is Ok <==> balanced(cs@),
        r is Ok ==> decoded_pairing(cs@, r->Ok_0@),
        first_unmatched_close(cs@) >= 0 ==> r == Err::<Vec<i64>, StructureParseError>(
            StructureParseError::MissingLeftParentheses {
                left: left_symbol(right_class(cs@[first_unmatched_close(cs@)])),
                right: cs@[first_unmatched_close(cs@)],
                pos: (first_unmatched_close(cs@) + 1) as usize,
            },
        ),
        first_unmatched_close(cs@) < 0 && !balanced(cs@) ==> (r matches Err(
            StructureParseError::MissingRightParentheses { left, right, pos },
        ) && 1 <= pos <= cs@.len() && left == cs@[pos - 1] && left_class(left) == least_open_class(
            cs@,
        ) && right == right_symbol(least_open_class(cs@)) && is_unclosed_open(
            cs@,
            least_open_class(cs@),
            pos - 1,
        ) && forall|j: int| pos - 1 < j < cs@.len() ==> !is_unclosed_open(
            cs@,
            least_open_class(cs@),
            j,
        )),
{
    let ghost s = cs@;
    let n = cs.len();

    let mut stacks: Vec<Vec<usize>> = Vec::new();
    while stacks.len() < NUM_BRACKET_CLASSES
        invariant
            stacks@.len() <= NUM_BRACKET_CLASSES,
            forall|k: int| 0 <= k < stacks@.len() ==> (#[trigger] stacks@[k])@.len() == 0,
        decreases NUM_BRACKET_CLASSES - stacks@.len(),
    {
        stacks.push(Vec::new());
    }

    let mut paired: Vec<i64> = Vec::new();
    while paired.len() < n
        invariant
            paired@.len() <= n,
            n == s.len(),
            forall|q: int| 0 <= q < paired@.len() ==> #[trigger] paired@[q] == 0,
        decreases n - paired@.len(),
    {
        paired.push(0);
    }

    proof {
        assert forall|k: int| 0 <= k < NUM_BRACKET_CLASSES implies stack_wf(
            s,
            k,
            (#[trigger] stacks@[k])@,
            0,
        ) by {
            assert(surplus(s, k, 0) == 0);
        }
        assert(decode_inv(s, paired@, stacks@, 0));
    }

    let mut i: usize = 0;
    while i < n
        invariant
            n == s.len(),
            s == cs@,
            s.len() < 0x8000_0000_0000_0000,
            i <= n,
            decode_inv(s, paired@, stacks@, i as int),
        decreases n - i,
    {
        let ghost p_old = paired@;
        let ghost sts_old = stacks@;
        let c = cs[i];
        let lk = left_class_of(c);
        if lk < NUM_BRACKET_CLASSES {
            stacks[lk].push(i);
            proof {
                lemma_step_left(s, p_old, sts_old, stacks@, i as int, lk as int);
            }
        } else {
            let rk = right_class_of(c);
            if rk < NUM_BRACKET_CLASSES {
                let depth = stacks[rk].len();
                if depth == 0 {
                    proof {
                        assert(surplus(s, rk as int, i as int) == 0);
                        lemma_first_unmatched_close_at(s, i as int);
                        assert(!balanced(s)) by {
                            if balanced(s) {
                                assert(is_right_bracket_char(s[i as int]));
                            }
                        }
                    }
                    return Err(
                        StructureParseError::MissingLeftParentheses {
                            left: left_symbol_of(rk),
                            right: c,
                            pos: i + 1,
                        },
                    );
                } else {
                    let j = stacks[rk][depth - 1];
                    stacks[rk].pop();
                    proof {
                        assert(j < i) by {
                            assert(is_unclosed_open_in(s, rk as int, j as int, i as int));
                        }
                    }
                    paired[i] = (j as i64) + 1;
                    paired[j] = (i as i64) + 1;
                    proof {
                        lemma_step_match(s, p_old, paired@, sts_old, stacks@, i as int, rk as int, j as int);
                    }
                }
            } else {
                proof {
                    lemma_step_plain(s, paired@, sts_old, stacks@, i as int);
                }
            }
        }
        i = i + 1;
    }

    // the scan is complete: report the lowest class left open, if any
    let mut k: usize = 0;
    while k < NUM_BRACKET_CLASSES
        invariant
            n == s.len(),
            s == cs@,
            k <= NUM_BRACKET_CLASSES,
            decode_inv(s, paired@, stacks@, n as int),
            forall|k2: int| 0 <= k2 < k ==> surplus(s, k2, s.len() as int) == 0,
        decreases NUM_BRACKET_CLASSES - k,
    {
        let depth = stacks[k].len();
        if depth > 0 {
            let j = stacks[k][depth - 1];
            let c = cs[j];
            proof {
                assert(is_unclosed_open_in(s, k as int, j as int, n as int));
                assert(left_class(s[j as int]) == k as int);
                lemma_least_open_class_at(s, k as int);
                lemma_no_unmatched_close(s);
                assert(!balanced(s));
                assert forall|j2: int| j < j2 < s.len() implies !is_unclosed_open(
                    s,
                    k as int,
                    j2,
                ) by {
                    if is_unclosed_open(s, k as int, j2) {
                        assert(stacks@[k as int]@.contains(j2 as usize));
                        let d2 = choose|d2: int|
                            0 <= d2 < stacks@[k as int]@.len() && stacks@[k as int]@[d2]
                                == j2 as usize;
                        assert(stacks@[k as int]@[d2] <= j);
                    }
                }
            }
            return Err(
                StructureParseError::MissingRightParentheses {
                    left: c,
                    right: right_symbol_of(k),
                    pos: j + 1,
                },
            );
        }
        k = k + 1;
    }

    proof {
        lemma_no_unmatched_close(s);
        assert forall|k2: int| 0 <= k2 < NUM_BRACKET_CLASSES implies #[trigger] surplus(
            s,
            k2,
            s.len() as int,
        ) == 0 by {
            assert(stacks@[k2]@.len() == surplus(s, k2, s.len() as int));
        }
        assert(balanced(s));
        assert forall|q: int| 0 <= q < paired@.len() implies (#[trigger] paired@[q] == 0 <==> (
        !is_left_bracket_char(s[q]) && !is_right_bracket_char(s[q]))) by {
            if paired@[q] == 0 && is_left_bracket_char(s[q]) {
                assert(stacks@[left_class(s[q])]@.contains(q as usize));
            }
        }
        assert(valid_pairing(paired@));
        assert(decoded_pairing(s, paired@));
    }
    Ok(paired)
}

/// The matching partner of a bracket symbol: the right symbol of a left
/// bracket's class, or the left symbol of a right bracket's class.
pub fn get_matching_bracket(brace: char) -> (r: Result<char, StructureParseError>)
    ensures
        is_left_bracket_char(brace) ==> r == Ok::<char, StructureParseError>(
            right_symbol(left_class(brace)),
        ),
        is_right_bracket_char(brace) ==> r == Ok::<char, StructureParseError>(
            left_symbol(right_class(brace)),
        ),
        !is_left_bracket_char(brace) && !is_right_bracket_char(brace) ==> r == Err::<
            char,
            StructureParseError,
        >(StructureParseError::BracketTypeNotRecognised { c: brace }),
{
    let lk = left_class_of(brace);
    if lk < NUM_BRACKET_CLASSES {
        return Ok(right_symbol_of(lk));
    }
    let rk = right_class_of(brace);
    if rk < NUM_BRACKET_CLASSES {
        return Ok(left_symbol_of(rk));
    }
    Err(StructureParseError::BracketTypeNotRecognised { c: brace })
}

/// Decodes a dot-bracket string into a paired-sites array.
///
/// Succeeds exactly on balanced bracket strings; characters that are no
/// bracket leave their site unpaired. On success the result pairs mutual
/// partners, matches each opening bracket with a closing bracket of the same
/// class, and never lets two pairs of one class cross. A closing bracket
/// with no pending opening bracket of its class, or an opening bracket that
/// is never closed, is reported with its symbol and 1-based position.
/// Partner positions are stored as signed 64-bit numbers, whence the bound
/// on the length.
pub fn from_dotbracketstring(dbs: &str) -> (r: Result<Vec<i64>, StructureParseError>)
    requires
        dbs@.len() < 0x8000_0000_0000_0000,
    ensures
        r is Ok <==> balanced(dbs@),
        r is Ok ==> decoded_pairing(dbs@, r->Ok_0@),
        first_unmatched_close(dbs@) >= 0 ==> r == Err::<Vec<i64>, StructureParseError>(
            StructureParseError::MissingLeftParentheses {
                left: left_symbol(right_class(dbs@[first_unmatched_close(dbs@)])),
                right: dbs@[first_unmatched_close(dbs@)],
                pos: (first_unmatched_close(dbs@) + 1) as usize,
            },
        ),
        first_unmatched_close(dbs@) < 0 && !balanced(dbs@) ==> (r matches Err(
            StructureParseError::MissingRightParentheses { left, right, pos },
        ) && 1 <= pos <= dbs@.len() && left == dbs@[pos - 1] && left_class(left)
            == least_open_class(dbs@) && right == right_symbol(least_open_class(dbs@))
            && is_unclosed_open(dbs@, least_open_class(dbs@), pos - 1) && forall|j: int|
            pos - 1 < j < dbs@.len() ==> !is_unclosed_open(dbs@, least_open_class(dbs@), j)),
{
    let cs = str_to_chars(dbs);
    decode_chars(&cs)
}

/// Some open pair whose opener got class `k2` would cross the pair opening
/// at `q`.
spec fn rejected_cls(p: Seq<i64>, cls: Seq<usize>, q: int, k2: int) -> bool {
    exists|a: int|
        #[trigger] opens_at(p, a) && a < q && cls[a] as int == k2 && q < p[a] - 1 && p[a] - 1
            < p[q] - 1
}

/// A rejection witness lies left of `q`, so extending the class column keeps
/// it.
proof fn lemma_rejected_cls_prefix(
    p: Seq<i64>,
    cls_old: Seq<usize>,
    cls: Seq<usize>,
    q: int,
    k2: int,
)
    requires
        rejected_cls(p, cls_old, q, k2),
        0 <= q,
        forall|a: int| 0 <= a < q ==> cls[a] == cls_old[a],
    ensures
        rejected_cls(p, cls, q, k2),
{
    let a = choose|a: int|
        #[trigger] opens_at(p, a) && a < q && cls_old[a] as int == k2 && q < p[a] - 1 && p[a] - 1
            < p[q] - 1;
    assert(opens_at(p, a) && a < q && cls[a] as int == k2 && q < p[a] - 1 && p[a] - 1 < p[q] - 1);
}

/// Everything the encoding loop preserves. After `i` sites: emitted
/// characters follow the pairing, each class stack holds the closing
/// positions of that class's still-open pairs in decreasing order, the
/// emitted prefix is balanced so far, and pairs of one class never cross.
spec fn encode_inv(p: Seq<i64>, out: Seq<char>, cls: Seq<usize>, sts: Seq<Vec<usize>>, i: int) -> bool {
    &&& sts.len() == NUM_BRACKET_CLASSES
    &&& 0 <= i <= p.len()
    &&& out.len() == i
    &&& cls.len() == i
    &&& forall|q: int| 0 <= q < i ==> ((#[trigger] p[q] == 0) <==> out[q] == '.')
    &&& forall|q: int|
        0 <= q < i && #[trigger] opens_at(p, q) ==> cls[q] < NUM_BRACKET_CLASSES && out[q]
            == left_symbol(cls[q] as int)
    &&& forall|q: int|
        0 <= q < i && #[trigger] closes_at(p, q) ==> out[q] == right_symbol(cls[p[q] - 1] as int)
    &&& forall|k: int, d: int|
        0 <= k < NUM_BRACKET_CLASSES && 0 <= d < sts[k]@.len() ==> (i <= (((
        #[trigger] sts[k]@[d]) as int)) && ((sts[k]@[d] as int) < p.len()) && closes_at(
            p,
            sts[k]@[d] as int,
        ) && 0 <= p[sts[k]@[d] as int] - 1 < i && cls[p[sts[k]@[d] as int] - 1] == k)
    &&& forall|k: int, d1: int, d2: int|
        0 <= k < NUM_BRACKET_CLASSES && 0 <= d1 < d2 < sts[k]@.len() ==> #[trigger] sts[k]@[d1]
            > #[trigger] sts[k]@[d2]
    &&& forall|a: int|
        0 <= a < i && #[trigger] opens_at(p, a) && p[a] - 1 >= i ==> sts[cls[a] as int]@.contains(
            (p[a] - 1) as usize,
        )
    &&& forall|k: int|
        0 <= k < NUM_BRACKET_CLASSES ==> #[trigger] surplus(out, k, i) == sts[k]@.len()
    &&& closes_matched_before(out, i)
    &&& forall|a1: int, a2: int|
        #[trigger] opens_at(p, a1) && #[trigger] opens_at(p, a2) && 0 <= a1 < i && 0 <= a2 < i
            && cls[a1] == cls[a2] && a1 < a2 && a2 < p[a1] - 1 ==> p[a2] < p[a1]
    &&& forall|q: int, k2: int|
        0 <= q < i && opens_at(p, q) && 0 <= k2 < cls[q] ==> #[trigger] rejected_cls(
            p,
            cls,
            q,
            k2,
        )
}

/// Converts a paired-sites array into a dot-bracket string.
///
/// Unpaired sites are written `.`; each pair opens with the left symbol of
/// the lowest class whose still-open pairs all close after the new pair (so
/// pairs of one class never cross) and closes with that class's right
/// symbol. The result decodes back to exactly the given array. A structure
/// with no crossing pairs always encodes; one whose mutually crossing pairs
/// exhaust the thirty classes is refused. Site positions are compared as
/// signed 64-bit numbers, whence the bound on the length.
pub fn get_dot_bracket_string(paired: &Vec<i64>) -> (r: Result<String, StructureParseError>)
    requires
        valid_pairing(paired@),
        paired@.len() < 0x8000_0000_0000_0000,
    ensures
        r is Ok ==> decoded_pairing(r->Ok_0@, paired@) && balanced(r->Ok_0@) && greedy_first_fit(
            r->Ok_0@,
            paired@,
        ) && dots_unpaired(r->Ok_0@, paired@),
        r is Err ==> r->Err_0 == StructureParseError::InsufficientBracketTypes && has_crossing(
            paired@,
        ),
        !has_crossing(paired@) ==> r is Ok,
{
    let ghost p = paired@;
    let n = paired.len();

    let mut stacks: Vec<Vec<usize>> = Vec::new();
    while stacks.len() < NUM_BRACKET_CLASSES
        invariant
            stacks@.len() <= NUM_BRACKET_CLASSES,
            forall|k: int| 0 <= k < stacks@.len() ==> (#[trigger] stacks@[k])@.len() == 0,
        decreases NUM_BRACKET_CLASSES - stacks@.len(),
    {
        stacks.push(Vec::new());
    }

    let mut out: Vec<char> = Vec::new();
    let mut cls: Vec<usize> = Vec::new();
    let mut i: usize = 0;
    proof {
        assert(encode_inv(p, out@, cls@, stacks@, 0));
    }
    while i < n
        invariant
            p == paired@,
            n == p.len(),
            p.len() < 0x8000_0000_0000_0000,
            valid_pairing(p),
            i <= n,
            encode_inv(p, out@, cls@, stacks@, i as int),
        decreases n - i,
    {
        let ghost out_old = out@;
        let ghost cls_old = cls@;
        let ghost sts_old = stacks@;
        let v = paired[i];
        proof {
            assert(0 <= v <= n);
        }
        if v == 0 {
            out.push('.');
            cls.push(NUM_BRACKET_CLASSES);
            proof {
                lemma_enc_dot(p, out_old, out@, cls_old, cls@, stacks@, i as int);
            }
        } else if v > (i as i64) + 1 {
            let j = (v - 1) as usize;
            let mut k: usize = 0;
            let mut found: usize = NUM_BRACKET_CLASSES;
            while k < NUM_BRACKET_CLASSES && found == NUM_BRACKET_CLASSES
                invariant
                    k <= NUM_BRACKET_CLASSES,
                    found <= NUM_BRACKET_CLASSES,
                    stacks@ == sts_old,
                    sts_old.len() == NUM_BRACKET_CLASSES,
                    found == NUM_BRACKET_CLASSES ==> forall|k2: int|
                        0 <= k2 < k ==> (#[trigger] sts_old[k2])@.len() > 0
                            && (sts_old[k2]@[sts_old[k2]@.len() - 1] as int) <= j,
                    found < NUM_BRACKET_CLASSES ==> (sts_old[found as int]@.len() == 0 || (
                    sts_old[found as int]@[sts_old[found as int]@.len() - 1] as int) > j),
                    found < NUM_BRACKET_CLASSES ==> forall|k2: int|
                        0 <= k2 < found ==> (#[trigger] sts_old[k2])@.len() > 0
                            && (sts_old[k2]@[sts_old[k2]@.len() - 1] as int) <= j,
                decreases NUM_BRACKET_CLASSES - k,
            {
                let len_k = stacks[k].len();
                if len_k == 0 || stacks[k][len_k - 1] > j {
                    found = k;
                }
                k = k + 1;
            }
            if found == NUM_BRACKET_CLASSES {
                proof {
                    // every class keeps a pair open that closes before j: the
                    // one of class 0 already crosses the new pair
                    let b = sts_old[0]@[sts_old[0]@.len() - 1] as int;
                    let a = p[b] - 1;
                    assert(opens_at(p, a) && opens_at(p, i as int));
                    assert(p[a] == b + 1 && p[i as int] == j + 1);
                    assert(b != j) by {
                        if b == j {
                            assert(p[b] == p[j as int]);
                        }
                    }
                    assert(a < i < b < j);
                    assert(has_crossing(p));
                }
                return Err(StructureParseError::InsufficientBracketTypes);
            }
            stacks[found].push(j);
            out.push(left_symbol_of(found));
            cls.push(found);
            proof {
                lemma_enc_open(
                    p,
                    out_old,
                    out@,
                    cls_old,
                    cls@,
                    sts_old,
                    stacks@,
                    i as int,
                    found as int,
                    j as int,
                );
            }
        } else {
            // v <= i: this site closes the pair opened at v - 1
            let a = (v - 1) as usize;
            proof {
                assert(closes_at(p, i as int));
                assert(p[a as int] == i + 1) by {
                    assert(p[p[i as int] - 1] == i + 1);
                }
                assert(opens_at(p, a as int));
            }
            let kc = cls[a];
            proof {
                assert(stacks@[kc as int]@.contains(i as usize));
                let d = choose|d: int|
                    0 <= d < stacks@[kc as int]@.len() && stacks@[kc as int]@[d] == i as usize;
                assert(stacks@[kc as int]@.len() > 0);
                let last = stacks@[kc as int]@.len() - 1;
                assert(stacks@[kc as int]@[last] == i as usize) by {
                    if d < last {
                        assert(stacks@[kc as int]@[d] > stacks@[kc as int]@[last]);
                        assert((stacks@[kc as int]@[last] as int) >= i);
                    }
                }
            }
            stacks[kc].pop();
            out.push(right_symbol_of(kc));
            cls.push(kc);
            proof {
                lemma_enc_close(
                    p,
                    out_old,
                    out@,
                    cls_old,
                    cls@,
                    sts_old,
                    stacks@,
                    i as int,
                    kc as int,
                    a as int,
                );
            }
        }
        i = i + 1;
    }
    proof {
        assert forall|k: int| 0 <= k < NUM_BRACKET_CLASSES implies (#[trigger] stacks@[k])@.len()
            == 0 by {
            if stacks@[k]@.len() > 0 {
                assert((stacks@[k]@[0] as int) < p.len());
            }
        }
        assert(balanced(out@));
        crate::alphabet::lemma_alphabet_consistent();
        assert forall|q: int| 0 <= q < out@.len() implies ((#[trigger] p[q] == 0) <==> (
        !is_left_bracket_char(out@[q]) && !is_right_bracket_char(out@[q]))) by {
            if p[q] != 0 {
                if opens_at(p, q) {
                    assert(out@[q] == left_symbol(cls@[q] as int));
                } else {
                    assert(closes_at(p, q));
                    assert(out@[q] == right_symbol(cls@[p[q] - 1] as int));
                    assert(opens_at(p, p[q] - 1));
                }
            }
        }
        assert forall|q: int| #[trigger] opens_at(p, q) implies is_left_bracket_char(out@[q])
            && right_class(out@[p[q] - 1]) == left_class(out@[q]) by {
            assert(out@[q] == left_symbol(cls@[q] as int));
            assert(closes_at(p, p[q] - 1));
            assert(p[p[q] - 1] == q + 1);
            assert(out@[p[q] - 1] == right_symbol(cls@[q] as int));
        }
        assert forall|i1: int, i2: int|
            #[trigger] opens_at(p, i1) && #[trigger] opens_at(p, i2) && left_class(out@[i1])
                == left_class(out@[i2]) && i1 < i2 && i2 < p[i1] - 1 implies p[i2] < p[i1] by {
            assert(out@[i1] == left_symbol(cls@[i1] as int));
            assert(out@[i2] == left_symbol(cls@[i2] as int));
            assert(cls@[i1] == cls@[i2]);
        }
        assert(decoded_pairing(out@, p));
        assert forall|q: int, k2: int|
            opens_at(p, q) && 0 <= k2 < left_class(out@[q]) implies #[trigger] crossing_open_pair(
            out@,
            p,
            q,
            k2,
        ) by {
            assert(out@[q] == left_symbol(cls@[q] as int));
            assert(left_class(out@[q]) == cls@[q]);
            assert(rejected_cls(p, cls@, q, k2));
            let a = choose|a: int|
                #[trigger] opens_at(p, a) && a < q && cls@[a] as int == k2 && q < p[a] - 1 && p[a]
                    - 1 < p[q] - 1;
            assert(out@[a] == left_symbol(cls@[a] as int));
            assert(left_class(out@[a]) == k2);
            assert(opens_at(p, a) && a < q && left_class(out@[a]) == k2 && q < p[a] - 1 && p[a] - 1
                < p[q] - 1);
        }
        assert(greedy_first_fit(out@, p));
    }
    Ok(chars_to_string(&out))
}

/// A named secondary structure: a label, a nucleotide sequence, and the
/// paired-sites array. No invariant ties the sequence to the array beyond
/// what callers enforce; the constructors produce equal lengths.
#[derive(Debug)]
pub struct SecondaryStructureRecord {
    /// A name for this record.
    pub name: String,
    /// The nucleotide sequence, one character per site.
    pub sequence: String,
    /// The paired-sites array.
    pub paired: Vec<i64>,
}

impl SecondaryStructureRecord {
    /// A record over the given paired sites, unnamed, with a placeholder
    /// sequence of `N`s of the same length.
    pub fn new(paired: Vec<i64>) -> (r: SecondaryStructureRecord)
        ensures
            r.name@ == Seq::<char>::empty(),
            r.sequence@.len() == paired@.len(),
            forall|q: int| 0 <= q < r.sequence@.len() ==> r.sequence@[q] == 'N',
            r.paired@ == paired@,
    {
        let len = paired.len();
        let mut seq_chars: Vec<char> = Vec::new();
        while seq_chars.len() < len
            invariant
                seq_chars@.len() <= len,
                forall|q: int| 0 <= q < seq_chars@.len() ==> seq_chars@[q] == 'N',
            decreases len - seq_chars@.len(),
        {
            seq_chars.push('N');
        }
        SecondaryStructureRecord {
            name: String::new(),
            sequence: chars_to_string(&seq_chars),
            paired,
        }
    }

    /// Replace the nucleotide sequence.
    pub fn set_sequence(&mut self, sequence: String)
        ensures
            final(self).sequence == sequence,
            final(self).name == old(self).name,
            final(self).paired == old(self).paired,
    {
        self.sequence = sequence;
    }

    /// Replace the paired-sites array.
    pub fn set_paired(&mut self, paired: Vec<i64>)
        ensures
            final(self).paired == paired,
            final(self).name == old(self).name,
            final(self).sequence == old(self).sequence,
    {
        self.paired = paired;
    }

    /// The dot-bracket string of this record's paired sites.
    pub fn get_dot_bracket_string(&self) -> (r: Result<String, StructureParseError>)
        requires
            valid_pairing(self.paired@),
            self.paired@.len() < 0x8000_0000_0000_0000,
        ensures
            r is Ok ==> decoded_pairing(r->Ok_0@, self.paired@) && balanced(r->Ok_0@)
                && greedy_first_fit(r->Ok_0@, self.paired@),
            r is Err ==> r->Err_0 == StructureParseError::InsufficientBracketTypes
                && has_crossing(self.paired@),
            !has_crossing(self.paired@) ==> r is Ok,
    {
        get_dot_bracket_string(&self.paired)
    }
}

/// Read-only access to a paired-sites array, offered by both the bare array
/// and the record.
pub trait PairedSites {
    /// The paired-sites array seen through this value.
    spec fn paired_view(&self) -> Seq<i64>;

    /// A reference to the paired-sites array.
    fn paired(&self) -> (r: &Vec<i64>)
        ensures
            r@ == self.paired_view(),
    ;
}

impl PairedSites for SecondaryStructureRecord {
    open spec fn paired_view(&self) -> Seq<i64> {
        self.paired@
    }

    fn paired(&self) -> (r: &Vec<i64>) {
        &self.paired
    }
}

impl PairedSites for Vec<i64> {
    open spec fn paired_view(&self) -> Seq<i64> {
        self@
    }

    fn paired(&self) -> (r: &Vec<i64>) {
        self
    }
}

/// The classifier's scan from site `i` on: unpaired sites pass; an opening
/// site whose closing position reaches past the innermost open pair reports
/// a pseudoknot; a closing site consumes the innermost open pair; a closing
/// site with no open pair left, or open pairs left at the end, are the
/// integrity failures.
pub open spec fn classify_scan(p: Seq<i64>, i: int, stack: Seq<i64>) -> Result<
    bool,
    StructureParseError,
>
    decreases p.len() - i,
{
    if i < 0 || i >= p.len() {
        if stack.len() > 0 {
            Err(StructureParseError::InputNotConsumed)
        } else {
            Ok(false)
        }
    } else {
        let j = p[i];
        if j == 0 {
            classify_scan(p, i + 1, stack)
        } else if i < j {
            if stack.len() > 0 && j >= stack[stack.len() - 1] {
                Ok(true)
            } else {
                classify_scan(p, i + 1, stack.push(j))
            }
        } else {
            if stack.len() > 0 {
                classify_scan(p, i + 1, stack.drop_last())
            } else {
                Err(StructureParseError::InputConsumed)
            }
        }
    }
}

/// The classifier's scan of a whole array.
pub open spec fn spec_classify(p: Seq<i64>) -> Result<bool, StructureParseError> {
    classify_scan(p, 0, Seq::empty())
}

/// The classifier's stack after `i` sites: exactly the 1-based closing
/// positions of the still-open pairs, in decreasing order, and no two pairs
/// whose openers are both scanned cross each other.
spec fn classify_inv(p: Seq<i64>, stack: Seq<i64>, i: int) -> bool {
    &&& forall|d: int|
        0 <= d < stack.len() ==> i + 1 <= #[trigger] stack[d] <= p.len() && closes_at(
            p,
            stack[d] - 1,
        ) && p[stack[d] - 1] <= i
    &&& forall|d1: int, d2: int|
        0 <= d1 < d2 < stack.len() ==> #[trigger] stack[d1] > #[trigger] stack[d2]
    &&& forall|a: int|
        0 <= a < i && #[trigger] opens_at(p, a) && p[a] - 1 >= i ==> stack.contains(p[a])
    &&& forall|a1: int, a2: int|
        #[trigger] opens_at(p, a1) && #[trigger] opens_at(p, a2) && 0 <= a1 < a2 < i && a2 < p[a1]
            - 1 ==> p[a2] < p[a1]
}

/// Classifies a paired-sites array as pseudoknotted or not.
///
/// For a well-formed array the answer is exact: true when two pairs cross,
/// false otherwise. The two error cases arise only for arrays that are not
/// mutually symmetric: a closing site whose opening site was never seen, and
/// opening sites left unconsumed at the end. Site positions are compared as
/// signed 64-bit numbers, whence the bound on the length.
pub fn is_pseudoknotted(paired: &Vec<i64>) -> (r: Result<bool, StructureParseError>)
    requires
        paired@.len() < 0x8000_0000_0000_0000,
    ensures
        r == spec_classify(paired@),
        valid_pairing(paired@) ==> r == Ok::<bool, StructureParseError>(has_crossing(paired@)),
        r is Err ==> !valid_pairing(paired@) && (r->Err_0 == StructureParseError::InputConsumed
            || r->Err_0 == StructureParseError::InputNotConsumed),
{
    let ghost p = paired@;
    let n = paired.len();
    let mut stack: Vec<i64> = Vec::new();
    let mut i: usize = 0;
    while i < n
        invariant
            p == paired@,
            n == p.len(),
            p.len() < 0x8000_0000_0000_0000,
            i <= n,
            spec_classify(p) == classify_scan(p, i as int, stack@),
            valid_pairing(p) ==> classify_inv(p, stack@, i as int),
        decreases n - i,
    {
        let ghost st_old = stack@;
        let j = paired[i];
        if j == 0 {
            proof {
                if valid_pairing(p) {
                    lemma_classify_keep(p, st_old, i as int);
                }
            }
        } else if (i as i64) < j {
            let sl = stack.len();
            if sl > 0 && j >= stack[sl - 1] {
                proof {
                    if valid_pairing(p) {
                        // the top belongs to an open pair that the new pair crosses
                        let b = stack@[sl - 1] - 1;
                        let a = p[b] - 1;
                        assert(opens_at(p, a)) by {
                            assert(p[p[b] - 1] == b + 1);
                        }
                        assert(opens_at(p, i as int));
                        assert(b != p[i as int] - 1) by {
                            if b == p[i as int] - 1 {
                                assert(p[b] == i + 1);
                            }
                        }
                        assert(a < i < b && b < p[i as int] - 1);
                        assert(has_crossing(p));
                    }
                }
                return Ok(true);
            } else {
                stack.push(j);
                proof {
                    if valid_pairing(p) {
                        lemma_classify_push(p, st_old, stack@, i as int);
                    }
                }
            }
        } else {
            let sl = stack.len();
            if sl > 0 {
                stack.pop();
                proof {
                    assert(stack@ =~= st_old.drop_last());
                    if valid_pairing(p) {
                        lemma_classify_pop(p, st_old, stack@, i as int);
                    }
                }
            } else {
                proof {
                    assert(!valid_pairing(p)) by {
                        if valid_pairing(p) {
                            assert(closes_at(p, i as int));
                            let a = p[i as int] - 1;
                            assert(p[a] == i + 1);
                            assert(opens_at(p, a));
                            assert(stack@.contains(p[a]));
                        }
                    }
                }
                return Err(StructureParseError::InputConsumed);
            }
        }
        i = i + 1;
    }
    if stack.len() > 0 {
        proof {
            assert(!valid_pairing(p)) by {
                if valid_pairing(p) {
                    assert(stack@[0] <= p.len() && stack@[0] >= n + 1);
                }
            }
        }
        return Err(StructureParseError::InputNotConsumed);
    }
    proof {
        if valid_pairing(p) {
            assert(!has_crossing(p)) by {
                if has_crossing(p) {
                    let (a1, a2) = choose|a1: int, a2: int|
                        #[trigger] opens_at(p, a1) && #[trigger] opens_at(p, a2) && a1 < a2 && a2
                            < p[a1] - 1 && p[a1] - 1 < p[a2] - 1;
                    assert(p[a2] < p[a1]);
                }
            }
        }
    }
    Ok(false)
}

/// A site that neither opens nor closes leaves the classifier's stack as is.
proof fn lemma_classify_keep(p: Seq<i64>, stack: Seq<i64>, i: int)
    requires
        valid_pairing(p),
        0 <= i < p.len(),
        classify_inv(p, stack, i),
        !opens_at(p, i),
        !closes_at(p, i),
    ensures
        classify_inv(p, stack, i + 1),
{
    assert forall|d: int| 0 <= d < stack.len() implies i + 1 + 1 <= #[trigger] stack[d] by {
        if stack[d] == i + 1 {
            assert(closes_at(p, i));
        }
    }
    assert forall|a: int|
        0 <= a < i + 1 && #[trigger] opens_at(p, a) && p[a] - 1 >= i + 1 implies stack.contains(
        p[a],
    ) by {
        assert(a != i);
    }
}

/// An opening site whose closing position lies below the stack top is pushed.
proof fn lemma_classify_push(p: Seq<i64>, st_old: Seq<i64>, st: Seq<i64>, i: int)
    requires
        valid_pairing(p),
        0 <= i < p.len(),
        classify_inv(p, st_old, i),
        opens_at(p, i),
        st == st_old.push(p[i]),
        st_old.len() > 0 ==> p[i] < st_old[st_old.len() - 1],
    ensures
        classify_inv(p, st, i + 1),
{
    let b = p[i] - 1;
    assert(closes_at(p, b) && p[b] == i + 1) by {
        assert(p[p[i] - 1] == i + 1);
    }
    assert forall|d: int|
        0 <= d < st.len() implies i + 1 + 1 <= #[trigger] st[d] <= p.len() && closes_at(
        p,
        st[d] - 1,
    ) && p[st[d] - 1] <= i + 1 by {
        if d < st.len() - 1 {
            assert(st[d] == st_old[d]);
            if st[d] == i + 1 {
                assert(closes_at(p, i));
            }
        } else {
            assert(st[d] == p[i]);
            assert(b > i);
        }
    }
    assert forall|d1: int, d2: int| 0 <= d1 < d2 < st.len() implies #[trigger] st[d1]
        > #[trigger] st[d2] by {
        if d2 == st.len() - 1 {
            assert(st[d1] == st_old[d1]);
            if d1 < st_old.len() - 1 {
                assert(st_old[d1] > st_old[st_old.len() - 1]);
            }
        } else {
            assert(st[d1] == st_old[d1] && st[d2] == st_old[d2]);
        }
    }
    assert forall|a: int|
        0 <= a < i + 1 && #[trigger] opens_at(p, a) && p[a] - 1 >= i + 1 implies st.contains(
        p[a],
    ) by {
        if a == i {
            assert(st[st.len() - 1] == p[i]);
        } else {
            assert(st_old.contains(p[a]));
            let d = choose|d: int| 0 <= d < st_old.len() && st_old[d] == p[a];
            assert(st[d] == p[a]);
        }
    }
    assert forall|a1: int, a2: int|
        #[trigger] opens_at(p, a1) && #[trigger] opens_at(p, a2) && 0 <= a1 < a2 < i + 1 && a2
            < p[a1] - 1 implies p[a2] < p[a1] by {
        if a2 == i {
            assert(p[a1] - 1 >= i + 1);
            assert(st_old.contains(p[a1]));
            let d = choose|d: int| 0 <= d < st_old.len() && st_old[d] == p[a1];
            assert(st_old.len() > 0);
            if d < st_old.len() - 1 {
                assert(st_old[d] > st_old[st_old.len() - 1]);
            }
            assert(p[a1] >= st_old[st_old.len() - 1]);
        }
    }
}

/// A closing site pops its own pair, which sits on top of the stack.
proof fn lemma_classify_pop(p: Seq<i64>, st_old: Seq<i64>, st: Seq<i64>, i: int)
    requires
        valid_pairing(p),
        0 <= i < p.len(),
        classify_inv(p, st_old, i),
        !opens_at(p, i),
        p[i] != 0,
        p[i] <= i,
        st_old.len() > 0,
        st == st_old.subrange(0, st_old.len() - 1),
    ensures
        classify_inv(p, st, i + 1),
        st_old[st_old.len() - 1] == i + 1,
{
    let a = p[i] - 1;
    assert(closes_at(p, i));
    assert(p[a] == i + 1 && opens_at(p, a)) by {
        assert(p[p[i] - 1] == i + 1);
    }
    assert(st_old.contains(p[a]));
    let dtop = choose|d: int| 0 <= d < st_old.len() && st_old[d] == p[a];
    let last = st_old.len() - 1;
    assert(st_old[last] == i + 1) by {
        if dtop < last {
            assert(st_old[dtop] > st_old[last]);
            assert(st_old[last] >= i + 1);
        }
    }
    assert forall|d: int|
        0 <= d < st.len() implies i + 1 + 1 <= #[trigger] st[d] <= p.len() && closes_at(
        p,
        st[d] - 1,
    ) && p[st[d] - 1] <= i + 1 by {
        assert(st[d] == st_old[d]);
        assert(st_old[d] > st_old[last]);
    }
    assert forall|a2: int|
        0 <= a2 < i + 1 && #[trigger] opens_at(p, a2) && p[a2] - 1 >= i + 1 implies st.contains(
        p[a2],
    ) by {
        assert(a2 != i);
        assert(st_old.contains(p[a2]));
        let d = choose|d: int| 0 <= d < st_old.len() && st_old[d] == p[a2];
        if d == last {
            assert(p[a2] == i + 1);
        } else {
            assert(st[d] == p[a2]);
        }
    }
    assert forall|a1: int, a2: int|
        #[trigger] opens_at(p, a1) && #[trigger] opens_at(p, a2) && 0 <= a1 < a2 < i + 1 && a2
            < p[a1] - 1 implies p[a2] < p[a1] by {
        if a2 == i {
            assert(!opens_at(p, i));
        }
    }
}

/// Maintenance of the encode invariant over an unpaired site.
proof fn lemma_enc_dot(
    p: Seq<i64>,
    out_old: Seq<char>,
    out: Seq<char>,
    cls_old: Seq<usize>,
    cls: Seq<usize>,
    sts: Seq<Vec<usize>>,
    i: int,
)
    requires
        valid_pairing(p),
        0 <= i < p.len(),
        encode_inv(p, out_old, cls_old, sts, i),
        p[i] == 0,
        out == out_old.push('.'),
        cls == cls_old.push(NUM_BRACKET_CLASSES as usize),
    ensures
        encode_inv(p, out, cls, sts, i + 1),
{
    lemma_enc_emit(p, out_old, out, cls_old, cls, sts, i);
    assert(left_class('.') == -1 && right_class('.') == -1);
    assert forall|k: int| 0 <= k < NUM_BRACKET_CLASSES implies #[trigger] surplus(out, k, i + 1)
        == sts[k]@.len() by {
        lemma_counts_prefix_agree(out, out_old, k, i);
        assert(surplus(out, k, i) == surplus(out_old, k, i));
    }
    assert forall|a: int|
        0 <= a < i + 1 && #[trigger] opens_at(p, a) && p[a] - 1 >= i + 1 implies sts[cls[a] as int]@.contains(
        (p[a] - 1) as usize,
    ) by {
        assert(a != i);
        assert(cls[a] == cls_old[a]);
    }
    assert forall|q: int, k2: int|
        0 <= q < i + 1 && opens_at(p, q) && 0 <= k2 < cls[q] implies #[trigger] rejected_cls(
        p,
        cls,
        q,
        k2,
    ) by {
        assert(q != i);
        assert(cls[q] == cls_old[q]);
        assert(rejected_cls(p, cls_old, q, k2));
        lemma_rejected_cls_prefix(p, cls_old, cls, q, k2);
    }
}

/// Facts shared by every emit step: the old columns keep their meaning.
proof fn lemma_enc_emit(
    p: Seq<i64>,
    out_old: Seq<char>,
    out: Seq<char>,
    cls_old: Seq<usize>,
    cls: Seq<usize>,
    sts: Seq<Vec<usize>>,
    i: int,
)
    requires
        0 <= i < p.len(),
        encode_inv(p, out_old, cls_old, sts, i),
        out.len() == i + 1,
        cls.len() == i + 1,
        forall|q: int| 0 <= q < i ==> out[q] == out_old[q] && cls[q] == cls_old[q],
    ensures
        forall|q: int| 0 <= q < i ==> ((#[trigger] p[q] == 0) <==> out[q] == '.'),
        forall|q: int|
            0 <= q < i && #[trigger] opens_at(p, q) ==> cls[q] < NUM_BRACKET_CLASSES && out[q]
                == left_symbol(cls[q] as int),
        forall|q: int|
            0 <= q < i && #[trigger] closes_at(p, q) ==> out[q] == right_symbol(
                cls[p[q] - 1] as int,
            ),
        closes_matched_before(out, i),
        forall|k: int|
            0 <= k < NUM_BRACKET_CLASSES ==> #[trigger] surplus(out, k, i) == surplus(
                out_old,
                k,
                i,
            ),
{
    assert forall|q: int| 0 <= q < i && #[trigger] closes_at(p, q) implies out[q] == right_symbol(
        cls[p[q] - 1] as int,
    ) by {
        assert(0 <= p[q] - 1 < q);
        assert(out_old[q] == right_symbol(cls_old[p[q] - 1] as int));
    }
    assert forall|k: int| 0 <= k < NUM_BRACKET_CLASSES implies #[trigger] surplus(out, k, i)
        == surplus(out_old, k, i) by {
        lemma_counts_prefix_agree(out, out_old, k, i);
    }
    assert forall|m: int| 0 <= m < i && is_right_bracket_char(#[trigger] out[m]) implies surplus(
        out,
        right_class(out[m]),
        m,
    ) >= 1 by {
        assert(out_old[m] == out[m]);
        assert(surplus(out_old, right_class(out_old[m]), m) >= 1);
        lemma_counts_prefix_agree(out, out_old, right_class(out[m]), m);
    }
}

/// Maintenance of the encode invariant when a pair opens: its closing
/// position is pushed on an accepting class's stack.
proof fn lemma_enc_open(
    p: Seq<i64>,
    out_old: Seq<char>,
    out: Seq<char>,
    cls_old: Seq<usize>,
    cls: Seq<usize>,
    sts_old: Seq<Vec<usize>>,
    sts: Seq<Vec<usize>>,
    i: int,
    kc: int,
    j: int,
)
    requires
        valid_pairing(p),
        0 <= i < p.len(),
        p.len() <= usize::MAX,
        encode_inv(p, out_old, cls_old, sts_old, i),
        opens_at(p, i),
        j == p[i] - 1,
        0 <= kc < NUM_BRACKET_CLASSES,
        sts_old[kc]@.len() == 0 || (sts_old[kc]@[sts_old[kc]@.len() - 1] as int) > j,
        forall|k2: int|
            0 <= k2 < kc ==> (#[trigger] sts_old[k2])@.len() > 0
                && (sts_old[k2]@[sts_old[k2]@.len() - 1] as int) <= j,
        sts.len() == sts_old.len(),
        sts[kc]@ == sts_old[kc]@.push(j as usize),
        forall|k: int| 0 <= k < sts.len() && k != kc ==> sts[k] == sts_old[k],
        out == out_old.push(left_symbol(kc)),
        cls == cls_old.push(kc as usize),
    ensures
        encode_inv(p, out, cls, sts, i + 1),
{
    lemma_enc_emit(p, out_old, out, cls_old, cls, sts_old, i);
    crate::alphabet::lemma_alphabet_consistent();
    assert(left_class(out[i]) == kc && right_class(out[i]) == -1);
    assert(closes_at(p, j));
    // stack contents stay open pairs, now including the new one
    assert forall|k: int, d: int|
        0 <= k < NUM_BRACKET_CLASSES && 0 <= d < sts[k]@.len() implies (i + 1 <= (((
    #[trigger] sts[k]@[d]) as int)) && ((sts[k]@[d] as int) < p.len()) && closes_at(
        p,
        sts[k]@[d] as int,
    ) && 0 <= p[sts[k]@[d] as int] - 1 < i + 1 && cls[p[sts[k]@[d] as int] - 1] == k) by {
        if k == kc && d == sts[k]@.len() - 1 {
            assert(sts[k]@[d] == j as usize);
            assert(p[j] == i + 1);
            assert(cls[i] == kc);
        } else {
            assert(sts[k]@[d] == sts_old[k]@[d]);
            let b = sts_old[k]@[d] as int;
            assert(i <= b < p.len() && closes_at(p, b) && 0 <= p[b] - 1 < i);
            assert(b != i) by {
                if b == i {
                    assert(closes_at(p, i) && opens_at(p, i));
                }
            }
            assert(cls[p[b] - 1] == cls_old[p[b] - 1]);
        }
    }
    assert forall|k: int, d1: int, d2: int|
        0 <= k < NUM_BRACKET_CLASSES && 0 <= d1 < d2 < sts[k]@.len() implies #[trigger] sts[k]@[d1]
        > #[trigger] sts[k]@[d2] by {
        if k == kc && d2 == sts[k]@.len() - 1 {
            assert(sts[k]@[d1] == sts_old[k]@[d1]);
            assert(sts_old[kc]@.len() > 0);
            let last = sts_old[kc]@.len() - 1;
            if d1 < last {
                assert(sts_old[kc]@[d1] > sts_old[kc]@[last]);
            }
            assert((sts_old[kc]@[last] as int) > j);
        } else {
            assert(sts[k]@[d1] == sts_old[k]@[d1] && sts[k]@[d2] == sts_old[k]@[d2]);
        }
    }
    // membership of all open pairs
    assert forall|a: int|
        0 <= a < i + 1 && #[trigger] opens_at(p, a) && p[a] - 1 >= i + 1 implies sts[cls[a] as int]@.contains(
        (p[a] - 1) as usize,
    ) by {
        if a == i {
            assert(cls[a] == kc as usize);
            assert(sts[kc]@[sts[kc]@.len() - 1] == j as usize);
        } else {
            assert(cls[a] == cls_old[a]);
            assert(sts_old[cls_old[a] as int]@.contains((p[a] - 1) as usize));
            let d = choose|d: int|
                0 <= d < sts_old[cls_old[a] as int]@.len() && sts_old[cls_old[a] as int]@[d] == (
                p[a] - 1) as usize;
            assert(sts[cls_old[a] as int]@[d] == (p[a] - 1) as usize);
        }
    }
    // the emitted prefix stays balanced so far
    assert forall|k: int| 0 <= k < NUM_BRACKET_CLASSES implies #[trigger] surplus(out, k, i + 1)
        == sts[k]@.len() by {
        assert(surplus(out, k, i) == surplus(out_old, k, i));
    }
    // a new same-class pair nests inside every open pair of its class
    assert forall|a1: int, a2: int|
        #[trigger] opens_at(p, a1) && #[trigger] opens_at(p, a2) && 0 <= a1 < i + 1 && 0 <= a2 < i
            + 1 && cls[a1] == cls[a2] && a1 < a2 && a2 < p[a1] - 1 implies p[a2] < p[a1] by {
        if a2 == i {
            assert(cls[a1] == kc as usize && a1 < i);
            assert(opens_at(p, a1) && p[a1] - 1 > i);
            assert(sts_old[kc]@.contains((p[a1] - 1) as usize));
            let d = choose|d: int|
                0 <= d < sts_old[kc]@.len() && sts_old[kc]@[d] == (p[a1] - 1) as usize;
            let last = sts_old[kc]@.len() - 1;
            assert((sts_old[kc]@[last] as int) > j);
            if d < last {
                assert(sts_old[kc]@[d] > sts_old[kc]@[last]);
            }
            assert(p[a1] - 1 > j);
        } else if a1 == i {
            assert(a2 < p[i] - 1 && a2 > i);
            assert(false) by {
                assert(0 <= a2 < i + 1);
            }
        } else {
            assert(cls[a1] == cls_old[a1] && cls[a2] == cls_old[a2]);
        }
    }
    // the chosen class is the first fit: every lower class held an open pair
    // that the new pair would cross
    assert forall|q: int, k2: int|
        0 <= q < i + 1 && opens_at(p, q) && 0 <= k2 < cls[q] implies #[trigger] rejected_cls(
        p,
        cls,
        q,
        k2,
    ) by {
        if q < i {
            assert(cls[q] == cls_old[q]);
            assert(rejected_cls(p, cls_old, q, k2));
            lemma_rejected_cls_prefix(p, cls_old, cls, q, k2);
        } else {
            assert(cls[q] == kc as usize);
            let b = sts_old[k2]@[sts_old[k2]@.len() - 1] as int;
            let a = p[b] - 1;
            assert(closes_at(p, b) && 0 <= a < i && cls_old[a] == k2 && i <= b < p.len());
            assert(p[a] == b + 1) by {
                assert(p[p[b] - 1] == b + 1);
            }
            assert(opens_at(p, a));
            assert(b != i) by {
                if b == i {
                    assert(closes_at(p, i) && opens_at(p, i));
                }
            }
            assert(b != j) by {
                if b == j {
                    assert(p[p[i] - 1] == i + 1);
                    assert(p[b] == i + 1);
                }
            }
            assert(cls[a] as int == k2);
            assert(opens_at(p, a) && a < q && cls[a] as int == k2 && q < p[a] - 1 && p[a] - 1
                < p[q] - 1);
        }
    }
}

/// Maintenance of the encode invariant when a pair closes: its closing
/// position leaves the top of its class's stack.
proof fn lemma_enc_close(
    p: Seq<i64>,
    out_old: Seq<char>,
    out: Seq<char>,
    cls_old: Seq<usize>,
    cls: Seq<usize>,
    sts_old: Seq<Vec<usize>>,
    sts: Seq<Vec<usize>>,
    i: int,
    kc: int,
    a: int,
)
    requires
        valid_pairing(p),
        0 <= i < p.len(),
        p.len() <= usize::MAX,
        encode_inv(p, out_old, cls_old, sts_old, i),
        closes_at(p, i),
        a == p[i] - 1,
        0 <= a < i,
        opens_at(p, a),
        kc == cls_old[a],
        0 <= kc < NUM_BRACKET_CLASSES,
        sts_old[kc]@.len() > 0,
        sts_old[kc]@[sts_old[kc]@.len() - 1] == i as usize,
        sts.len() == sts_old.len(),
        sts[kc]@ == sts_old[kc]@.subrange(0, sts_old[kc]@.len() - 1),
        forall|k: int| 0 <= k < sts.len() && k != kc ==> sts[k] == sts_old[k],
        out == out_old.push(right_symbol(kc)),
        cls == cls_old.push(kc as usize),
    ensures
        encode_inv(p, out, cls, sts, i + 1),
{
    lemma_enc_emit(p, out_old, out, cls_old, cls, sts_old, i);
    crate::alphabet::lemma_alphabet_consistent();
    assert(right_class(out[i]) == kc && left_class(out[i]) == -1);
    assert(out[i] == right_symbol(cls[p[i] - 1] as int));
    assert forall|k: int, d: int|
        0 <= k < NUM_BRACKET_CLASSES && 0 <= d < sts[k]@.len() implies (i + 1 <= (((
    #[trigger] sts[k]@[d]) as int)) && ((sts[k]@[d] as int) < p.len()) && closes_at(
        p,
        sts[k]@[d] as int,
    ) && 0 <= p[sts[k]@[d] as int] - 1 < i + 1 && cls[p[sts[k]@[d] as int] - 1] == k) by {
        assert(sts[k]@[d] == sts_old[k]@[d]);
        let b = sts_old[k]@[d] as int;
        assert(i <= b < p.len() && closes_at(p, b) && 0 <= p[b] - 1 < i);
        assert(b != i) by {
            if b == i {
                // the top was the unique stack entry equal to i
                assert(p[b] - 1 == a);
                assert(k == kc);
                let last = sts_old[kc]@.len() - 1;
                if d < last {
                    assert(sts_old[kc]@[d] > sts_old[kc]@[last]);
                    assert((sts_old[kc]@[last] as int) >= i);
                }
            }
        }
        assert(cls[p[b] - 1] == cls_old[p[b] - 1]);
    }
    assert forall|k: int, d1: int, d2: int|
        0 <= k < NUM_BRACKET_CLASSES && 0 <= d1 < d2 < sts[k]@.len() implies #[trigger] sts[k]@[d1]
        > #[trigger] sts[k]@[d2] by {
        assert(sts[k]@[d1] == sts_old[k]@[d1] && sts[k]@[d2] == sts_old[k]@[d2]);
    }
    assert forall|a2: int|
        0 <= a2 < i + 1 && #[trigger] opens_at(p, a2) && p[a2] - 1 >= i + 1 implies sts[cls[a2] as int]@.contains(
        (p[a2] - 1) as usize,
    ) by {
        assert(a2 != i);
        assert(cls[a2] == cls_old[a2]);
        assert(sts_old[cls_old[a2] as int]@.contains((p[a2] - 1) as usize));
        let d = choose|d: int|
            0 <= d < sts_old[cls_old[a2] as int]@.len() && sts_old[cls_old[a2] as int]@[d] == (p[a2]
                - 1) as usize;
        let last = sts_old[kc]@.len() - 1;
        if cls_old[a2] as int == kc && d == last {
            assert(p[a2] - 1 == i);
            assert(false);
        } else {
            assert(sts[cls_old[a2] as int]@[d] == (p[a2] - 1) as usize);
        }
    }
    assert forall|k: int| 0 <= k < NUM_BRACKET_CLASSES implies #[trigger] surplus(out, k, i + 1)
        == sts[k]@.len() by {
        assert(surplus(out, k, i) == surplus(out_old, k, i));
    }
    assert(closes_matched_before(out, i + 1)) by {
        assert(surplus(out, kc, i) == sts_old[kc]@.len() >= 1);
    }
    assert forall|a1: int, a2: int|
        #[trigger] opens_at(p, a1) && #[trigger] opens_at(p, a2) && 0 <= a1 < i + 1 && 0 <= a2 < i
            + 1 && cls[a1] == cls[a2] && a1 < a2 && a2 < p[a1] - 1 implies p[a2] < p[a1] by {
        assert(a1 != i) by {
            if a1 == i {
                assert(opens_at(p, i) && closes_at(p, i));
            }
        }
        assert(a2 != i) by {
            if a2 == i {
                assert(opens_at(p, i) && closes_at(p, i));
            }
        }
        assert(cls[a1] == cls_old[a1] && cls[a2] == cls_old[a2]);
    }
    assert forall|q: int, k2: int|
        0 <= q < i + 1 && opens_at(p, q) && 0 <= k2 < cls[q] implies #[trigger] rejected_cls(
        p,
        cls,
        q,
        k2,
    ) by {
        assert(q != i) by {
            if q == i {
                assert(opens_at(p, i) && closes_at(p, i));
            }
        }
        assert(cls[q] == cls_old[q]);
        assert(rejected_cls(p, cls_old, q, k2));
        lemma_rejected_cls_prefix(p, cls_old, cls, q, k2);
    }
}

/// Maintenance of the decode invariant over a character that is no bracket.
proof fn lemma_step_plain(s: Seq<char>, p: Seq<i64>, sts_old: Seq<Vec<usize>>, sts: Seq<Vec<usize>>, n: int)
    requires
        0 <= n < s.len(),
        s.len() <= usize::MAX,
        decode_inv(s, p, sts_old, n),
        sts == sts_old,
        !is_left_bracket_char(s[n]),
        !is_right_bracket_char(s[n]),
    ensures
        decode_inv(s, p, sts, n + 1),
{
    assert forall|k: int| 0 <= k < NUM_BRACKET_CLASSES implies #[trigger] surplus(s, k, n + 1)
        == surplus(s, k, n) by {
        lemma_surplus_step(s, k, n);
    }
    assert forall|k: int| 0 <= k < NUM_BRACKET_CLASSES implies stack_wf(
        s,
        k,
        (#[trigger] sts[k])@,
        n + 1,
    ) by {
        let st = sts[k]@;
        assert forall|d: int| 0 <= d < st.len() implies is_unclosed_open_in(
            s,
            k,
            #[trigger] st[d] as int,
            n + 1,
        ) && surplus(s, k, st[d] as int + 1) == d + 1 by {
            assert(is_unclosed_open_in(s, k, st[d] as int, n));
            assert(surplus(s, k, n) >= surplus(s, k, st[d] as int + 1));
        }
        assert forall|j: int| #![trigger st.contains(j as usize)] is_unclosed_open_in(
            s,
            k,
            j,
            n + 1,
        ) implies st.contains(j as usize) by {
            assert(j != n);
            assert(surplus(s, k, n) >= surplus(s, k, j + 1));
            assert(is_unclosed_open_in(s, k, j, n));
        }
    }
}

/// Maintenance of the decode invariant over an opening bracket: its position
/// is pushed on the stack of its class.
proof fn lemma_step_left(s: Seq<char>, p: Seq<i64>, sts_old: Seq<Vec<usize>>, sts: Seq<Vec<usize>>, n: int, kc: int)
    requires
        0 <= n < s.len(),
        s.len() <= usize::MAX,
        decode_inv(s, p, sts_old, n),
        left_class(s[n]) == kc,
        0 <= kc < NUM_BRACKET_CLASSES,
        sts.len() == sts_old.len(),
        sts[kc]@ == sts_old[kc]@.push(n as usize),
        forall|k: int| 0 <= k < sts.len() && k != kc ==> sts[k] == sts_old[k],
        p[n] == 0,
    ensures
        decode_inv(s, p, sts, n + 1),
{
    assert forall|k: int| 0 <= k < NUM_BRACKET_CLASSES implies #[trigger] surplus(s, k, n + 1)
        == surplus(s, k, n) + (if k == kc {
        1int
    } else {
        0int
    }) by {
        lemma_surplus_step(s, k, n);
    }
    assert forall|k: int| 0 <= k < NUM_BRACKET_CLASSES implies stack_wf(
        s,
        k,
        (#[trigger] sts[k])@,
        n + 1,
    ) by {
        let st = sts[k]@;
        let st_old = sts_old[k]@;
        assert forall|d: int| 0 <= d < st.len() implies is_unclosed_open_in(
            s,
            k,
            #[trigger] st[d] as int,
            n + 1,
        ) && surplus(s, k, st[d] as int + 1) == d + 1 by {
            if k == kc && d == st.len() - 1 {
                assert(st[d] == n as usize);
                assert forall|m: int| n < m <= n + 1 implies #[trigger] surplus(s, k, m)
                    >= surplus(s, k, n + 1) by {}
            } else {
                assert(st[d] == st_old[d]);
                assert(is_unclosed_open_in(s, k, st[d] as int, n));
                assert(surplus(s, k, n) >= surplus(s, k, st[d] as int + 1));
            }
        }
        assert forall|d1: int, d2: int| 0 <= d1 < d2 < st.len() implies #[trigger] st[d1]
            < #[trigger] st[d2] by {
            if k == kc && d2 == st.len() - 1 {
                assert(st[d1] == st_old[d1]);
                assert(is_unclosed_open_in(s, k, st_old[d1] as int, n));
            }
        }
        assert forall|j: int| #![trigger st.contains(j as usize)] is_unclosed_open_in(
            s,
            k,
            j,
            n + 1,
        ) implies st.contains(j as usize) by {
            if j == n {
                assert(k == kc);
                assert(st[st.len() - 1] == j as usize);
            } else {
                assert(surplus(s, k, n) >= surplus(s, k, j + 1));
                assert(is_unclosed_open_in(s, k, j, n));
                assert(st_old.contains(j as usize));
                let d = choose|d: int| 0 <= d < st_old.len() && st_old[d] == j as usize;
                assert(st[d] == j as usize);
            }
        }
    }
    assert forall|q: int|
        0 <= q < n + 1 && is_left_bracket_char(#[trigger] s[q]) && p[q] == 0 implies sts[left_class(
        s[q],
    )]@.contains(q as usize) by {
        if q == n {
            assert(sts[kc]@[sts[kc]@.len() - 1] == n as usize);
        } else {
            assert(sts_old[left_class(s[q])]@.contains(q as usize));
            let st_old = sts_old[left_class(s[q])]@;
            let d = choose|d: int| 0 <= d < st_old.len() && st_old[d] == q as usize;
            assert(sts[left_class(s[q])]@[d] == q as usize);
        }
    }
    assert forall|k: int, d: int|
        0 <= k < NUM_BRACKET_CLASSES && 0 <= d < sts[k]@.len() implies p[#[trigger] sts[k]@[d] as int]
        == 0 by {
        if k == kc && d == sts[k]@.len() - 1 {
        } else {
            assert(sts[k]@[d] == sts_old[k]@[d]);
        }
    }
    assert forall|k: int, d: int, q: int|
        0 <= k < NUM_BRACKET_CLASSES && 0 <= d < sts[k]@.len() && #[trigger] opens_at(p, q)
            && left_class(s[q]) == k implies (((#[trigger] sts[k]@[d]) as int) < q || ((sts[k]@[d]) as int)
        > p[q] - 1) by {
        if k == kc && d == sts[k]@.len() - 1 {
            assert(sts[k]@[d] == n as usize);
            assert(p[q] != 0 && q < n);
            assert(1 <= p[q] <= n);
        } else {
            assert(sts[k]@[d] == sts_old[k]@[d]);
        }
    }
}

/// Maintenance of the decode invariant over a closing bracket that matches
/// the top of its class stack: the pair is recorded on both sides.
proof fn lemma_step_match(
    s: Seq<char>,
    p_old: Seq<i64>,
    p: Seq<i64>,
    sts_old: Seq<Vec<usize>>,
    sts: Seq<Vec<usize>>,
    n: int,
    kc: int,
    j: int,
)
    requires
        0 <= n < s.len(),
        s.len() <= usize::MAX,
        s.len() < 0x8000_0000_0000_0000,
        decode_inv(s, p_old, sts_old, n),
        !is_left_bracket_char(s[n]),
        right_class(s[n]) == kc,
        0 <= kc < NUM_BRACKET_CLASSES,
        sts_old[kc]@.len() > 0,
        j == sts_old[kc]@[sts_old[kc]@.len() - 1] as int,
        sts.len() == sts_old.len(),
        sts[kc]@ == sts_old[kc]@.subrange(0, sts_old[kc]@.len() - 1),
        forall|k: int| 0 <= k < sts.len() && k != kc ==> sts[k] == sts_old[k],
        p == p_old.update(n, (j + 1) as i64).update(j, (n + 1) as i64),
    ensures
        decode_inv(s, p, sts, n + 1),
{
    let st_old_kc = sts_old[kc]@;
    let top_d = st_old_kc.len() - 1;
    assert(is_unclosed_open_in(s, kc, j, n));
    assert(0 <= j < n);
    assert(left_class(s[j]) == kc);
    assert(p_old[j] == 0);
    assert forall|k: int| 0 <= k < NUM_BRACKET_CLASSES implies #[trigger] surplus(s, k, n + 1)
        == surplus(s, k, n) - (if k == kc {
        1int
    } else {
        0int
    }) by {
        lemma_surplus_step(s, k, n);
    }
    assert(closes_matched_before(s, n + 1)) by {
        assert(surplus(s, kc, n) == st_old_kc.len() >= 1);
    }
    // stacks stay well formed
    assert forall|k: int| 0 <= k < NUM_BRACKET_CLASSES implies stack_wf(
        s,
        k,
        (#[trigger] sts[k])@,
        n + 1,
    ) by {
        let st = sts[k]@;
        let st_old = sts_old[k]@;
        assert forall|d: int| 0 <= d < st.len() implies is_unclosed_open_in(
            s,
            k,
            #[trigger] st[d] as int,
            n + 1,
        ) && surplus(s, k, st[d] as int + 1) == d + 1 by {
            assert(st[d] == st_old[d]);
            assert(is_unclosed_open_in(s, k, st_old[d] as int, n));
            assert(surplus(s, k, n) >= surplus(s, k, st_old[d] as int + 1));
            assert(surplus(s, k, st_old[d] as int + 1) == d + 1);
            if k == kc {
                assert(d < st_old.len() - 1);
                assert(surplus(s, k, n + 1) == st_old.len() - 1 >= d + 1);
            }
        }
        assert forall|d1: int, d2: int| 0 <= d1 < d2 < st.len() implies #[trigger] st[d1]
            < #[trigger] st[d2] by {
            assert(st[d1] == st_old[d1] && st[d2] == st_old[d2]);
        }
        assert forall|j2: int| #![trigger st.contains(j2 as usize)] is_unclosed_open_in(
            s,
            k,
            j2,
            n + 1,
        ) implies st.contains(j2 as usize) by {
            assert(j2 != n);
            assert(surplus(s, k, n) >= surplus(s, k, j2 + 1));
            assert(is_unclosed_open_in(s, k, j2, n));
            assert(st_old.contains(j2 as usize));
            let d = choose|d: int| 0 <= d < st_old.len() && st_old[d] == j2 as usize;
            if k == kc && d == top_d {
                // the popped top is closed now: depth falls below it at n + 1
                assert(surplus(s, k, n + 1) == st_old.len() - 1 < surplus(s, k, j2 + 1));
                assert(false);
            } else {
                assert(st[d] == j2 as usize);
            }
        }
    }
    // the new pair is mutual, class consistent, and crosses no same-class pair
    assert(opens_at(p, j));
    assert forall|q: int| #[trigger] opens_at(p, q) && q != j implies opens_at(p_old, q) by {
        assert(p[q] == p_old[q]);
    }
    assert forall|k: int, d: int, q: int|
        0 <= k < NUM_BRACKET_CLASSES && 0 <= d < sts[k]@.len() && #[trigger] opens_at(p, q)
            && left_class(s[q]) == k implies (((#[trigger] sts[k]@[d]) as int) < q || ((sts[k]@[d]) as int)
        > p[q] - 1) by {
        let u = sts[k]@[d] as int;
        if q == j {
            assert(k == kc);
            assert(sts[k]@[d] == st_old_kc[d]);
            assert(st_old_kc[d] < st_old_kc[top_d]);
            assert(u < j);
        } else {
            assert(opens_at(p_old, q));
            assert(sts_old[k]@.contains(sts[k]@[d]));
            let d_old = choose|d_old: int|
                0 <= d_old < sts_old[k]@.len() && sts_old[k]@[d_old] == sts[k]@[d];
            assert(u < q || u > p_old[q] - 1);
            assert(p[q] == p_old[q]);
        }
    }
    assert forall|i1: int, i2: int|
        #[trigger] opens_at(p, i1) && #[trigger] opens_at(p, i2) && left_class(s[i1])
            == left_class(s[i2]) && i1 < i2 && i2 < p[i1] - 1 implies p[i2] < p[i1] by {
        if i1 == j {
            // pairs of class kc opened inside (j, n) have closed before n
            assert(opens_at(p_old, i2));
            assert(((st_old_kc[top_d]) as int) < i2 || ((st_old_kc[top_d]) as int) > p_old[i2] - 1);
            assert(p[i2] == p_old[i2]);
            assert(1 <= p_old[i2] <= n);
        } else if i2 == j {
            // (i1, p[i1]-1) is an older same-class pair around j; j was on the
            // stack when it closed, so j lies outside it
            assert(opens_at(p_old, i1));
            assert(((st_old_kc[top_d]) as int) < i1 || ((st_old_kc[top_d]) as int) > p_old[i1] - 1);
            assert(p[i1] == p_old[i1]);
        } else {
            assert(opens_at(p_old, i1) && opens_at(p_old, i2));
            assert(p[i1] == p_old[i1] && p[i2] == p_old[i2]);
        }
    }
    assert forall|q: int|
        0 <= q < n + 1 && is_left_bracket_char(#[trigger] s[q]) && p[q] == 0 implies sts[left_class(
        s[q],
    )]@.contains(q as usize) by {
        assert(q != n && q != j);
        assert(p_old[q] == 0);
        assert(sts_old[left_class(s[q])]@.contains(q as usize));
        let st_old = sts_old[left_class(s[q])]@;
        let d = choose|d: int| 0 <= d < st_old.len() && st_old[d] == q as usize;
        if left_class(s[q]) == kc && d == top_d {
            assert(false);
        } else {
            assert(sts[left_class(s[q])]@[d] == q as usize);
        }
    }
    assert forall|k: int, d: int|
        0 <= k < NUM_BRACKET_CLASSES && 0 <= d < sts[k]@.len() implies p[#[trigger] sts[k]@[d] as int]
        == 0 by {
        assert(sts[k]@[d] == sts_old[k]@[d]);
        assert(p_old[sts_old[k]@[d] as int] == 0);
        if sts[k]@[d] as int == j {
            assert(k == kc);
            assert(st_old_kc[d] < st_old_kc[top_d]);
            assert(false);
        }
        assert(sts[k]@[d] as int != n);
    }
}

} // verus!
