//! Token similarity scoring.
//!
//! Two selectable metrics, as a fixed-point fraction of
//! [`SCORE_SCALE`](crate::options::SCORE_SCALE):
//!
//! - Jaro-Winkler (the default): the outside computation returns a float in
//!   `[0, 1]`; it crosses into verified code as its IEEE 754 bit pattern,
//!   which [`scaled_of_bits`] decodes into a fixed-point score. Works on
//!   arbitrary Unicode text.
//! - Bounded Levenshtein over bytes: `1 - distance / max(len)`, with the
//!   computation cut off at a bound derived from the threshold. Correct for
//!   single-byte (ASCII) text only; on multi-byte text the byte-level
//!   distances over- or under-count. Tokens of `2^31` bytes or more are
//!   treated as non-matching: the distance computation holds lengths in 32
//!   bits and its internal cutoff arithmetic doubles a length, so it is only
//!   relied on below that bound.
//!
//! A token pair contributes to a search only when its score strictly exceeds
//! the configured threshold.

use vstd::arithmetic::power2::{lemma2_to64, lemma2_to64_rest, lemma_pow2_strictly_increases};
use vstd::bits::{lemma_u64_low_bits_mask_is_mod, lemma_u64_shr_is_div, low_bits_mask};
use vstd::arithmetic::power2::pow2;
use vstd::prelude::*;

use crate::options::SearchOptions;
use crate::options::SCORE_SCALE;

verus! {

/// The bit pattern of the IEEE 754 double 1.0, the largest value the
/// Jaro-Winkler computation can return.
pub const BITS_ONE: u64 = 0x3FF0_0000_0000_0000;

/// The UTF-8 encoding of a character sequence, as `str::as_bytes` exposes
/// it; a function of the characters alone.
pub uninterp spec fn utf8_of(s: Seq<char>) -> Seq<u8>;

/// Relies on str::as_bytes: the returned slice is the UTF-8 encoding of the
/// string, a function of its characters alone; every character encodes to
/// one through four bytes, so there are at least as many bytes as
/// characters, and only the empty string encodes to no bytes.
#[verifier::external_body]
fn utf8_bytes(s: &str) -> (r: &[u8])
    ensures
        r@ == utf8_of(s@),
        r@.len() >= s@.len(),
        r@.len() == 0 <==> s@.len() == 0,
{
    s.as_bytes()
}

/// The Levenshtein edit distance between two byte strings.
pub uninterp spec fn lev_distance(a: Seq<u8>, b: Seq<u8>) -> nat;

/// Relies on triple_accel::levenshtein::levenshtein_simd_k: returns the
/// Levenshtein distance between the byte strings when it is at most `k`, and
/// `None` when it exceeds `k`; the distance between equal strings is 0, and
/// never exceeds the longer length. The crate holds lengths in 32 bits and
/// doubles the shorter length when bounding the cutoff, which wraps from
/// `2^31` on, so only slices shorter than that are handed to it.
#[verifier::external_body]
fn levenshtein_within(a: &[u8], b: &[u8], k: u32) -> (r: Option<u32>)
    requires
        a@.len() < 0x8000_0000,
        b@.len() < 0x8000_0000,
    ensures
        r is Some <==> lev_distance(a@, b@) <= k,
        r is Some ==> r->0 as nat == lev_distance(a@, b@),
        r is Some ==> r->0 as nat <= a@.len() || r->0 as nat <= b@.len(),
        a@ == b@ ==> r == Some(0u32),
{
    triple_accel::levenshtein::levenshtein_simd_k(a, b, k)
}

/// The IEEE 754 bit pattern of the Jaro-Winkler similarity of two character
/// sequences; a function of the characters alone.
pub uninterp spec fn jaro_winkler_bits(a: Seq<char>, b: Seq<char>) -> u64;

/// Relies on strsim::jaro_winkler: the similarity is a function of the two
/// character sequences alone, lies in `[0, 1]` — so its bit pattern, sign
/// bit clear, is at most that of 1.0 — and is exactly 1.0 for equal
/// sequences. `f64::to_bits` only transports the value.
#[verifier::external_body]
fn jaro_winkler_bits_of(a: &str, b: &str) -> (r: u64)
    ensures
        r == jaro_winkler_bits(a@, b@),
        r <= BITS_ONE,
        a@ == b@ ==> r == BITS_ONE,
{
    strsim::jaro_winkler(a, b).to_bits()
}

/// The fixed-point value, in units of `1 / SCORE_SCALE`, of the nonnegative
/// IEEE 754 double with bit pattern `bits`, rounded down; patterns at or
/// above that of 1.0 decode to `SCORE_SCALE` itself. For a pattern below
/// 1.0, the double's value is `(2^52 + frac) * 2^(exp - 1075)` (or a
/// subnormal below the fixed-point grid when `exp` is 0), so scaling by
/// `SCORE_SCALE = 2^30` and rounding down leaves `(2^52 + frac) / 2^(1045 -
/// exp)`.
pub open spec fn scaled_of_bits(bits: u64) -> nat {
    if bits >= BITS_ONE {
        SCORE_SCALE as nat
    } else {
        let exp = (bits as nat) / pow2(52);
        let frac = (bits as nat) % pow2(52);
        if exp == 0 {
            0
        } else {
            (pow2(52) + frac) / pow2((1045 - exp) as nat)
        }
    }
}

/// Decodes a similarity bit pattern into a fixed-point score.
fn scale_bits(bits: u64) -> (r: u64)
    ensures
        r as nat == scaled_of_bits(bits),
        r <= SCORE_SCALE,
{
    if bits >= BITS_ONE {
        return SCORE_SCALE;
    }
    let exp = bits >> 52u64;
    proof {
        lemma_u64_shr_is_div(bits, 52);
        assert(bits >> 52u64 <= 0x3FE) by (bit_vector)
            requires
                bits < 0x3FF0_0000_0000_0000u64,
        ;
    }
    if exp == 0 {
        return 0;
    }
    let frac = bits & 0xF_FFFF_FFFF_FFFF;
    let mant = frac | 0x10_0000_0000_0000;
    let shift = 1045 - exp;
    proof {
        lemma2_to64();
        lemma2_to64_rest();
        lemma_u64_low_bits_mask_is_mod(bits, 52);
        assert(low_bits_mask(52) == 0xF_FFFF_FFFF_FFFF);
        assert((bits & 0xF_FFFF_FFFF_FFFFu64) | 0x10_0000_0000_0000u64 == (bits
            & 0xF_FFFF_FFFF_FFFFu64) + 0x10_0000_0000_0000u64) by (bit_vector);
        assert(mant as nat == pow2(52) + frac as nat);
    }
    if shift >= 64 {
        proof {
            lemma_pow2_strictly_increases(53, shift as nat);
            assert(mant < 0x20_0000_0000_0000u64) by (bit_vector)
                requires
                    mant == (bits & 0xF_FFFF_FFFF_FFFFu64) | 0x10_0000_0000_0000u64,
            ;
            assert((mant as nat) < pow2(53));
            vstd::arithmetic::div_mod::lemma_basic_div(mant as int, pow2(shift as nat) as int);
        }
        return 0;
    }
    let r = mant >> shift;
    proof {
        lemma_u64_shr_is_div(mant, shift);
        assert(mant >> shift <= 0x4000_0000u64) by (bit_vector)
            requires
                23 <= shift < 64u64,
                mant < 0x20_0000_0000_0000u64,
        ;
        assert(mant < 0x20_0000_0000_0000u64) by (bit_vector)
            requires
                mant == (bits & 0xF_FFFF_FFFF_FFFFu64) | 0x10_0000_0000_0000u64,
        ;
    }
    r
}

/// The Jaro-Winkler score of a token pair: the decoded similarity bit
/// pattern; `SCORE_SCALE` itself (similarity 1.0) for equal tokens.
pub open spec fn jw_score(v: Seq<char>, q: Seq<char>) -> nat {
    if v == q {
        SCORE_SCALE as nat
    } else {
        scaled_of_bits(jaro_winkler_bits(v, q))
    }
}

/// The bounded-Levenshtein score of a token pair:
/// `(1 - distance / max(len)) * SCORE_SCALE` over the UTF-8 encodings,
/// rounded down; `SCORE_SCALE` itself for equal tokens and for two empty
/// encodings; 0 from `2^31` bytes on, the length bound of the distance
/// computation.
pub open spec fn lev_score(v: Seq<char>, q: Seq<char>) -> nat {
    if v == q {
        SCORE_SCALE as nat
    } else {
        let la = utf8_of(v).len();
        let lb = utf8_of(q).len();
        let len: nat = if la >= lb {
            la
        } else {
            lb
        };
        if len == 0 {
            SCORE_SCALE as nat
        } else if len >= 0x8000_0000 {
            0
        } else {
            let d = lev_distance(utf8_of(v), utf8_of(q));
            if d >= len {
                0
            } else {
                (((len - d) * SCORE_SCALE) / len as int) as nat
            }
        }
    }
}

/// The score of a vocabulary token `v` against a query token `q` under the
/// configured metric.
pub open spec fn token_score(opt: SearchOptions, v: Seq<char>, q: Seq<char>) -> nat {
    if opt.levenshtein {
        lev_score(v, q)
    } else {
        jw_score(v, q)
    }
}

/// What `v` may add to the entries holding it, for the one query token `q`:
/// its score when that strictly exceeds the threshold, else nothing.
pub open spec fn contribution(opt: SearchOptions, v: Seq<char>, q: Seq<char>) -> nat {
    if token_score(opt, v, q) > opt.threshold {
        token_score(opt, v, q)
    } else {
        0
    }
}

/// Computes [`contribution`]: the token pair's score when it qualifies, else
/// 0. For the Levenshtein metric the distance computation is cut off at the
/// smallest bound `k` with `distance > k` implying a score at or below the
/// threshold, so a cut-off pair contributes nothing, exactly as the spec has
/// it.
pub(crate) fn contribution_of(opt: &SearchOptions, v: &String, q: &String) -> (r: u64)
    requires
        opt.wf(),
    ensures
        r as nat == contribution(*opt, v@, q@),
        r <= SCORE_SCALE,
{
    let s: u64;
    let ghost score = token_score(*opt, v@, q@);
    if opt.levenshtein {
        if *v == *q {
            s = SCORE_SCALE;
        } else {
            let vb = utf8_bytes(v.as_str());
            let qb = utf8_bytes(q.as_str());
            let la = vb.len();
            let lb = qb.len();
            let len = if la >= lb {
                la
            } else {
                lb
            };
            if len == 0 {
                s = SCORE_SCALE;
            } else if len as u128 >= 0x8000_0000u128 {
                s = 0;
            } else {
                let t = opt.threshold;
                proof {
                    assert(((SCORE_SCALE - t) as int) * (len as int) <= 0x4000_0000
                        * 0x7FFF_FFFF) by (nonlinear_arith)
                        requires
                            0 <= SCORE_SCALE - t <= 0x4000_0000,
                            0 <= len <= 0x7FFF_FFFF,
                    ;
                }
                let k128 = (((SCORE_SCALE - t) as u128) * (len as u128) + ((SCORE_SCALE
                    - 1) as u128)) / (SCORE_SCALE as u128);
                proof {
                    assert(k128 <= len) by (nonlinear_arith)
                        requires
                            k128 == ((SCORE_SCALE - t) * (len as int) + (SCORE_SCALE - 1)) / (
                            SCORE_SCALE as int),
                            0 <= t <= SCORE_SCALE,
                            SCORE_SCALE == 0x4000_0000u64,
                            len >= 1,
                    ;
                }
                let k = k128 as u32;
                match levenshtein_within(vb, qb, k) {
                    Some(d) => {
                        let d64 = d as u64;
                        let len64 = len as u64;
                        if d64 >= len64 {
                            s = 0;
                        } else {
                            proof {
                                assert(((len64 - d64) as int) * (SCORE_SCALE as int) <= 0x7FFF_FFFF
                                    * 0x4000_0000) by (nonlinear_arith)
                                    requires
                                        0 <= len64 - d64 <= 0x7FFF_FFFF,
                                        SCORE_SCALE == 0x4000_0000u64,
                                ;
                            }
                            let num = ((len64 - d64) as u128) * (SCORE_SCALE as u128);
                            let q128 = num / (len64 as u128);
                            proof {
                                assert(q128 <= SCORE_SCALE) by (nonlinear_arith)
                                    requires
                                        q128 == ((len64 - d64) * SCORE_SCALE) / (len64 as int),
                                        0 < len64,
                                        d64 < len64,
                                ;
                            }
                            s = q128 as u64;
                        }
                    },
                    None => {
                        s = 0;
                        proof {
                            let ghost dd = lev_distance(utf8_of(v@), utf8_of(q@)) as int;
                            assert(dd > k128);
                            if dd < len {
                                assert((len - dd) * SCORE_SCALE / (len as int)
                                    <= opt.threshold) by (nonlinear_arith)
                                    requires
                                        k128 == ((SCORE_SCALE - opt.threshold) * (len as int) + (
                                        SCORE_SCALE - 1)) / (SCORE_SCALE as int),
                                        dd > k128,
                                        0 <= opt.threshold <= SCORE_SCALE,
                                        SCORE_SCALE == 0x4000_0000u64,
                                        1 <= len <= 0x7FFF_FFFF,
                                        0 <= dd < len,
                                ;
                            }
                            assert(score <= opt.threshold);
                        }
                    },
                }
            }
        }
    } else {
        if *v == *q {
            s = SCORE_SCALE;
        } else {
            s = scale_bits(jaro_winkler_bits_of(v.as_str(), q.as_str()));
        }
    }
    proof {
        assert(s as nat == score || (s == 0 && score <= opt.threshold));
    }
    if s > opt.threshold {
        s
    } else {
        0
    }
}

/// The most a vocabulary token `v` adds over a whole query: the largest
/// qualifying score it reaches against any query token, or 0 when it
/// qualifies against none.
pub open spec fn best_contribution(opt: SearchOptions, v: Seq<char>, qs: Seq<Seq<char>>) -> nat
    decreases qs.len(),
{
    if qs.len() == 0 {
        0
    } else {
        let rest = best_contribution(opt, v, qs.drop_last());
        let c = contribution(opt, v, qs.last());
        if c > rest {
            c
        } else {
            rest
        }
    }
}

/// Computes [`best_contribution`] of `v` over the query tokens.
pub(crate) fn best_contribution_of(opt: &SearchOptions, v: &String, qs: &Vec<String>) -> (r: u64)
    requires
        opt.wf(),
    ensures
        r as nat == best_contribution(*opt, v@, crate::text::views_of(qs@)),
        r <= SCORE_SCALE,
{
    let ghost qviews = crate::text::views_of(qs@);
    let mut r: u64 = 0;
    let mut j: usize = 0;
    while j < qs.len()
        invariant
            j <= qs@.len(),
            qviews == crate::text::views_of(qs@),
            r as nat == best_contribution(*opt, v@, qviews.take(j as int)),
            r <= SCORE_SCALE,
            opt.wf(),
        decreases qs@.len() - j,
    {
        let c = contribution_of(opt, v, &qs[j]);
        proof {
            assert(qviews.take(j + 1).drop_last() =~= qviews.take(j as int));
            assert(qviews.take(j + 1).last() == qs@[j as int]@);
        }
        if c > r {
            r = c;
        }
        j += 1;
    }
    proof {
        assert(qviews.take(qviews.len() as int) =~= qviews);
    }
    r
}

} // verus!
