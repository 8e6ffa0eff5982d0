use crate::distance::{lemma_lev_self, lemma_lev_sym, lev, max_len};
use vstd::arithmetic::div_mod::{
    lemma_div_multiples_vanish, lemma_fundamental_div_mod, lemma_mod_multiples_basic,
};
use vstd::prelude::*;

verus! {

/// A score is the normalized similarity `1 - d/m` where `d` is the edit
/// distance and `m` the longer length; `m == 0` (two empty strings) counts
/// as score one. `score_ge_raw(d1, m1, d2, m2)` says that the first score
/// is at least the second, stated without division by cross-multiplying.
pub open spec fn score_ge_raw(d1: nat, m1: nat, d2: nat, m2: nat) -> bool {
    if m1 == 0 {
        true
    } else if m2 == 0 {
        d1 == 0
    } else {
        d1 * m2 <= d2 * m1
    }
}

/// Candidate `c1` scores at least as high against `req` as `c2` does.
pub open spec fn score_ge(req: Seq<char>, c1: Seq<char>, c2: Seq<char>) -> bool {
    score_ge_raw(lev(req, c1), max_len(req, c1), lev(req, c2), max_len(req, c2))
}

/// A similarity of at least 0.6: `1 - d/m >= 3/5`, i.e. `5*d <= 2*m`.
pub open spec fn hit_raw(d: nat, m: nat) -> bool {
    5 * d <= 2 * m
}

/// The requested name and the candidate name score at least 0.6.
pub open spec fn is_hit(req: Seq<char>, name: Seq<char>) -> bool {
    hit_raw(lev(req, name), max_len(req, name))
}

/// The score comparison is total.
pub proof fn lemma_score_ge_total(d1: nat, m1: nat, d2: nat, m2: nat)
    ensures
        score_ge_raw(d1, m1, d2, m2) || score_ge_raw(d2, m2, d1, m1),
{
}

/// The score comparison is transitive, for pairs that come from actual
/// strings (distance bounded by the longer length).
pub proof fn lemma_score_ge_trans(d1: nat, m1: nat, d2: nat, m2: nat, d3: nat, m3: nat)
    requires
        d1 <= m1,
        d2 <= m2,
        d3 <= m3,
        score_ge_raw(d1, m1, d2, m2),
        score_ge_raw(d2, m2, d3, m3),
    ensures
        score_ge_raw(d1, m1, d3, m3),
{
    if m1 == 0 {
    } else if m3 == 0 {
        if m2 != 0 {
            assert(d2 == 0);
            assert(d1 * m2 <= 0);
            assert(d1 == 0) by (nonlinear_arith)
                requires
                    d1 * m2 <= 0,
                    m2 > 0,
            ;
        }
    } else {
        if m2 == 0 {
            assert(d1 == 0);
        } else {
            assert(d1 * m3 <= d3 * m1) by (nonlinear_arith)
                requires
                    d1 * m2 <= d2 * m1,
                    d2 * m3 <= d3 * m2,
                    m1 > 0,
                    m2 > 0,
                    m3 > 0,
            ;
        }
    }
}

/// Decides `score_ge_raw` on machine integers.
pub(crate) fn score_ge_exec(d1: usize, m1: usize, d2: usize, m2: usize) -> (r: bool)
    ensures
        r == score_ge_raw(d1 as nat, m1 as nat, d2 as nat, m2 as nat),
{
    if m1 == 0 {
        true
    } else if m2 == 0 {
        d1 == 0
    } else {
        proof {
            assert((d1 as nat) * (m2 as nat) <= u128::MAX && (d2 as nat) * (m1 as nat)
                <= u128::MAX) by (nonlinear_arith)
                requires
                    d1 as nat <= 0xFFFF_FFFF_FFFF_FFFF as nat,
                    m1 as nat <= 0xFFFF_FFFF_FFFF_FFFF as nat,
                    d2 as nat <= 0xFFFF_FFFF_FFFF_FFFF as nat,
                    m2 as nat <= 0xFFFF_FFFF_FFFF_FFFF as nat,
            ;
        }
        let p1: u128 = (d1 as u128) * (m2 as u128);
        let p2: u128 = (d2 as u128) * (m1 as u128);
        p1 <= p2
    }
}

/// Decides `hit_raw` on machine integers.
pub(crate) fn hit_exec(d: usize, m: usize) -> (r: bool)
    ensures
        r == hit_raw(d as nat, m as nat),
{
    5u128 * (d as u128) <= 2u128 * (m as u128)
}

/// The score rounded to hundredths, half to even: the integer nearest to
/// `100 * (m - d) / m`, with `100` for two empty strings.
pub open spec fn score_hundredths(d: nat, m: nat) -> int
    recommends
        d <= m,
{
    if m == 0 {
        100
    } else {
        let t = 100 * (m - d);
        let q = t / (m as int);
        let r = t % (m as int);
        if 2 * r > m {
            q + 1
        } else if 2 * r < m {
            q
        } else if q % 2 == 0 {
            q
        } else {
            q + 1
        }
    }
}

/// Computes `score_hundredths` on machine integers.
pub(crate) fn score_hundredths_exec(d: usize, m: usize) -> (r: usize)
    requires
        d <= m,
    ensures
        r as int == score_hundredths(d as nat, m as nat),
        r <= 100,
{
    if m == 0 {
        100
    } else {
        let t: u128 = 100 * ((m - d) as u128);
        let mu: u128 = m as u128;
        let q: u128 = t / mu;
        let rr: u128 = t % mu;
        proof {
            lemma_fundamental_div_mod(t as int, mu as int);
            assert(t == mu * q + rr);
            if q > 100 {
                assert(mu * q >= mu * 101) by (nonlinear_arith)
                    requires
                        q >= 101,
                        mu >= 1,
                ;
                assert(false);
            }
            if q == 100 {
                assert(rr == 0) by (nonlinear_arith)
                    requires
                        t as int == (mu as int) * (q as int) + (rr as int),
                        q == 100,
                        t as int <= 100 * (mu as int),
                        rr >= 0,
                ;
            }
        }
        let h: u128 = if 2 * rr > mu {
            q + 1
        } else if 2 * rr < mu {
            q
        } else if q % 2 == 0 {
            q
        } else {
            q + 1
        };
        h as usize
    }
}

/// A string always scores one against itself: the distance is zero, the
/// rounded score is 100 hundredths, and it is classified as a hit.
pub proof fn lemma_score_self(x: Seq<char>)
    ensures
        lev(x, x) == 0,
        score_hundredths(lev(x, x), max_len(x, x)) == 100,
        is_hit(x, x),
{
    lemma_lev_self(x);
    let m = max_len(x, x) as int;
    if m > 0 {
        lemma_div_multiples_vanish(100, m);
        lemma_mod_multiples_basic(100, m);
        assert(100 * (m - 0) == m * 100);
    }
}

/// The score is symmetric in the two strings.
pub proof fn lemma_score_symmetric(a: Seq<char>, b: Seq<char>)
    ensures
        lev(a, b) == lev(b, a),
        max_len(a, b) == max_len(b, a),
        score_hundredths(lev(a, b), max_len(a, b)) == score_hundredths(lev(b, a), max_len(b, a)),
        is_hit(a, b) == is_hit(b, a),
{
    lemma_lev_sym(a, b);
}

} // verus!
