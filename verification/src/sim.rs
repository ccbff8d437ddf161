//! Embedding vectors and exact cosine-similarity comparison.
//!
//! A vector component is a fixed-point number: component `c` stands for
//! the real value `c / 4096`.  Cosine similarity of vectors `a`, `b` is
//! `dot(a,b) / (|a|*|b|)`; if either norm is zero the similarity is the
//! sentinel value -1, which loses against every genuine comparison.
//!
//! No square root is ever taken.  A similarity is kept as the pair of
//! its dot product and the candidate's squared norm, relative to one
//! fixed query vector, and two similarities are ordered by comparing
//! signs and then cross-multiplied squares — exact integer arithmetic
//! that agrees with the real-valued ordering.

use vstd::prelude::*;

verus! {

/// Largest accepted vector dimensionality.
pub const MAX_DIM: usize = 1024;

/// Largest accepted magnitude of a fixed-point component (16 units).
pub const COMP_LIMIT: i64 = 65536;

/// The fixed-point scale: the component standing for the real value 1.
pub const FIXED_ONE: i64 = 4096;

/// Bound on every dot product and squared norm of well-formed vectors:
/// `MAX_DIM * COMP_LIMIT * COMP_LIMIT`.
pub const SIM_BOUND: i64 = 0x400_0000_0000;

/// A well-formed component sequence: bounded dimension and components.
pub open spec fn vec_wf(v: Seq<i64>) -> bool {
    &&& v.len() <= MAX_DIM
    &&& forall|i: int| 0 <= i < v.len() ==> -COMP_LIMIT <= #[trigger] v[i] <= COMP_LIMIT
}

/// The shorter of the two lengths: dot products pair components up to it.
pub open spec fn min_len(a: Seq<i64>, b: Seq<i64>) -> int {
    if a.len() <= b.len() {
        a.len() as int
    } else {
        b.len() as int
    }
}

/// Dot product of the components from position `i` on.
pub open spec fn dot_from(a: Seq<i64>, b: Seq<i64>, i: int) -> int
    decreases min_len(a, b) - i,
{
    if i < 0 || i >= min_len(a, b) {
        0
    } else {
        a[i] * b[i] + dot_from(a, b, i + 1)
    }
}

/// Dot product over the common prefix of the two vectors.
pub open spec fn dot(a: Seq<i64>, b: Seq<i64>) -> int {
    dot_from(a, b, 0)
}

/// Sum of squared components from position `i` up to position `m`.
pub open spec fn sqn_part(a: Seq<i64>, i: int, m: int) -> int
    decreases m - i,
{
    if i < 0 || i >= m || m > a.len() {
        0
    } else {
        a[i] * a[i] + sqn_part(a, i + 1, m)
    }
}

/// Squared Euclidean norm of a vector.
pub open spec fn sq_norm(a: Seq<i64>) -> int {
    sqn_part(a, 0, a.len() as int)
}

/// The mathematical value of a candidate's similarity against one
/// fixed query vector whose squared norm accompanies every comparison.
/// `Degenerate` is the sentinel -1 of a zero norm; `Fin { d, q }`
/// stands for the value `d / sqrt(qx * q)` where `qx` is the query's
/// squared norm.
pub enum ScoreV {
    Degenerate,
    Fin { d: int, q: int },
}

/// The score of a candidate with squared norm `q` and dot product `d`
/// against a query with squared norm `qx`.
pub open spec fn score_of(qx: int, d: int, q: int) -> ScoreV {
    if qx <= 0 || q <= 0 {
        ScoreV::Degenerate
    } else {
        ScoreV::Fin { d, q }
    }
}

/// Scores comparable under a query of squared norm `qx`: a finite score
/// only arises when the query and the candidate norms are positive.
pub open spec fn score_ok(qx: int, s: ScoreV) -> bool {
    match s {
        ScoreV::Degenerate => true,
        ScoreV::Fin { d, q } => qx > 0 && q > 0,
    }
}

/// A similarity score as the resolver computes it, relative to one
/// query vector.
#[derive(Clone, Copy, Debug, PartialEq, Eq, Structural)]
pub enum SimScore {
    Degenerate,
    Fin { d: i64, q: i64 },
}

impl SimScore {
    /// The mathematical score this value stands for.
    pub open spec fn view_score(&self) -> ScoreV {
        match *self {
            SimScore::Degenerate => ScoreV::Degenerate,
            SimScore::Fin { d, q } => ScoreV::Fin { d: d as int, q: q as int },
        }
    }
}

/// Bounds that hold of scores built from well-formed vectors; they let
/// the executable comparison multiply inside `i128`.
pub open spec fn score_in_bounds(qx: int, s: SimScore) -> bool {
    &&& 0 <= qx <= SIM_BOUND
    &&& match s {
        SimScore::Degenerate => true,
        SimScore::Fin { d, q } => -SIM_BOUND <= d <= SIM_BOUND && 0 < q <= SIM_BOUND,
    }
}

/// Exact strict order on similarities under one query: `s1` is strictly
/// less similar than `s2`.  Signs decide first; same-sign finite scores
/// compare by cross-multiplied squares, which agrees with comparing
/// `d1/sqrt(qx*q1)` against `d2/sqrt(qx*q2)` over the reals.
pub open spec fn sim_lt(qx: int, s1: ScoreV, s2: ScoreV) -> bool {
    match (s1, s2) {
        (ScoreV::Degenerate, ScoreV::Degenerate) => false,
        (ScoreV::Degenerate, ScoreV::Fin { d, q }) => d >= 0 || d * d < qx * q,
        (ScoreV::Fin { d, q }, ScoreV::Degenerate) => d < 0 && d * d > qx * q,
        (ScoreV::Fin { d: d1, q: q1 }, ScoreV::Fin { d: d2, q: q2 }) => {
            if d1 < 0 && d2 >= 0 {
                true
            } else if d1 >= 0 && d2 < 0 {
                false
            } else if d1 >= 0 {
                d1 * d1 * q2 < d2 * d2 * q1
            } else {
                d1 * d1 * q2 > d2 * d2 * q1
            }
        },
    }
}

/// A similarity that equals exactly 1: only a vector compared against a
/// positively-scaled copy of itself reaches it.
pub open spec fn sim_is_one(qx: int, s: ScoreV) -> bool {
    match s {
        ScoreV::Degenerate => false,
        ScoreV::Fin { d, q } => d >= 0 && d * d == qx * q,
    }
}

/// An embedding vector: fixed-point components.
pub struct Vector {
    pub comps: Vec<i64>,
}

impl Vector {
    /// Dimension and component bounds that every stored vector obeys.
    pub open spec fn wf(&self) -> bool {
        vec_wf(self.comps@)
    }

    /// Dot product with another vector over their common prefix,
    /// computed exactly.
    pub fn dot(&self, other: &Vector) -> (r: i64)
        requires
            self.wf(),
            other.wf(),
        ensures
            r as int == dot(self.comps@, other.comps@),
            -SIM_BOUND <= r <= SIM_BOUND,
    {
        let a = &self.comps;
        let b = &other.comps;
        let m: usize = if a.len() <= b.len() {
            a.len()
        } else {
            b.len()
        };
        let mut acc: i64 = 0;
        let mut i: usize = 0;
        while i < m
            invariant
                0 <= i <= m,
                m == min_len(a@, b@),
                acc + dot_from(a@, b@, i as int) == dot(a@, b@),
                -0x1_0000_0000 * (i as int) <= acc <= 0x1_0000_0000 * (i as int),
            decreases m - i,
        {
            assert(-0x1_0000_0000 <= a@[i as int] * b@[i as int] <= 0x1_0000_0000)
                by (nonlinear_arith)
                requires
                    -COMP_LIMIT <= a@[i as int] <= COMP_LIMIT,
                    -COMP_LIMIT <= b@[i as int] <= COMP_LIMIT,
            ;
            let p: i64 = a[i] * b[i];
            acc = acc + p;
            i = i + 1;
        }
        proof {
            assert(0x1_0000_0000 * (m as int) <= SIM_BOUND) by (nonlinear_arith)
                requires
                    0 <= m <= MAX_DIM,
            ;
        }
        acc
    }

    /// Squared norm, computed exactly.
    pub fn sq_norm(&self) -> (r: i64)
        requires
            self.wf(),
        ensures
            r as int == sq_norm(self.comps@),
            0 <= r <= SIM_BOUND,
    {
        let a = &self.comps;
        let n: usize = a.len();
        let mut acc: i64 = 0;
        let mut i: usize = 0;
        proof {
            lemma_sqn_part_nonneg(a@, 0, n as int);
        }
        while i < n
            invariant
                0 <= i <= n,
                n == a@.len(),
                acc + sqn_part(a@, i as int, n as int) == sq_norm(a@),
                0 <= acc <= 0x1_0000_0000 * (i as int),
            decreases n - i,
        {
            assert(0 <= a@[i as int] * a@[i as int] <= 0x1_0000_0000) by (nonlinear_arith)
                requires
                    -COMP_LIMIT <= a@[i as int] <= COMP_LIMIT,
            ;
            let p: i64 = a[i] * a[i];
            proof {
                lemma_sqn_part_nonneg(a@, i + 1, n as int);
            }
            acc = acc + p;
            i = i + 1;
        }
        proof {
            assert(0x1_0000_0000 * (n as int) <= SIM_BOUND) by (nonlinear_arith)
                requires
                    0 <= n <= MAX_DIM,
            ;
        }
        acc
    }
}

/// Build the score of a candidate against a query from their exact dot
/// product and squared norms.
pub fn score_make(qx: i64, d: i64, q: i64) -> (s: SimScore)
    requires
        0 <= qx,
        0 <= q,
    ensures
        s.view_score() == score_of(qx as int, d as int, q as int),
{
    if qx <= 0 || q <= 0 {
        SimScore::Degenerate
    } else {
        SimScore::Fin { d, q }
    }
}

/// Decide `sim_lt` executably; all products fit in `i128` thanks to the
/// component and dimension bounds.
pub fn sim_lt_exec(qx: i64, s1: &SimScore, s2: &SimScore) -> (r: bool)
    requires
        score_in_bounds(qx as int, *s1),
        score_in_bounds(qx as int, *s2),
    ensures
        r == sim_lt(qx as int, s1.view_score(), s2.view_score()),
{
    proof {
        lemma_i128_products_fit();
    }
    match (s1, s2) {
        (SimScore::Degenerate, SimScore::Degenerate) => false,
        (SimScore::Degenerate, SimScore::Fin { d, q }) => {
            *d >= 0 || (*d as i128) * (*d as i128) < (qx as i128) * (*q as i128)
        },
        (SimScore::Fin { d, q }, SimScore::Degenerate) => {
            *d < 0 && (*d as i128) * (*d as i128) > (qx as i128) * (*q as i128)
        },
        (SimScore::Fin { d: d1, q: q1 }, SimScore::Fin { d: d2, q: q2 }) => {
            if *d1 < 0 && *d2 >= 0 {
                true
            } else if *d1 >= 0 && *d2 < 0 {
                false
            } else if *d1 >= 0 {
                (*d1 as i128) * (*d1 as i128) * (*q2 as i128) < (*d2 as i128) * (*d2 as i128) * (
                *q1 as i128)
            } else {
                (*d1 as i128) * (*d1 as i128) * (*q2 as i128) > (*d2 as i128) * (*d2 as i128) * (
                *q1 as i128)
            }
        },
    }
}

/// Helper for `sim_lt_exec`: squares and triple products of values
/// bounded by `SIM_BOUND` stay strictly inside `i128`.
proof fn lemma_i128_products_fit()
    ensures
        forall|x: int, y: int|
            -SIM_BOUND <= x <= SIM_BOUND && -SIM_BOUND <= y <= SIM_BOUND ==> -0x10_0000_0000_0000_0000_0000
                <= #[trigger] (x * y) <= 0x10_0000_0000_0000_0000_0000,
        forall|p: int, z: int|
            -0x10_0000_0000_0000_0000_0000 <= p <= 0x10_0000_0000_0000_0000_0000 && -SIM_BOUND <= z
                <= SIM_BOUND ==> -0x4000_0000_0000_0000_0000_0000_0000_0000 <= #[trigger] (p * z)
                <= 0x4000_0000_0000_0000_0000_0000_0000_0000,
{
    assert forall|x: int, y: int|
        -SIM_BOUND <= x <= SIM_BOUND && -SIM_BOUND <= y <= SIM_BOUND implies -0x10_0000_0000_0000_0000_0000
        <= #[trigger] (x * y) <= 0x10_0000_0000_0000_0000_0000 by {
        assert(-0x10_0000_0000_0000_0000_0000 <= x * y <= 0x10_0000_0000_0000_0000_0000)
            by (nonlinear_arith)
            requires
                -SIM_BOUND <= x <= SIM_BOUND,
                -SIM_BOUND <= y <= SIM_BOUND,
        ;
    }
    assert forall|p: int, z: int|
        -0x10_0000_0000_0000_0000_0000 <= p <= 0x10_0000_0000_0000_0000_0000 && -SIM_BOUND <= z
        <= SIM_BOUND implies -0x4000_0000_0000_0000_0000_0000_0000_0000 <= #[trigger] (p * z)
        <= 0x4000_0000_0000_0000_0000_0000_0000_0000 by {
        assert(-0x4000_0000_0000_0000_0000_0000_0000_0000 <= p * z
            <= 0x4000_0000_0000_0000_0000_0000_0000_0000) by (nonlinear_arith)
            requires
                -0x10_0000_0000_0000_0000_0000 <= p <= 0x10_0000_0000_0000_0000_0000,
                -SIM_BOUND <= z <= SIM_BOUND,
        ;
    }
}

/// Sums of squares are never negative.
pub proof fn lemma_sqn_part_nonneg(a: Seq<i64>, i: int, m: int)
    ensures
        sqn_part(a, i, m) >= 0,
    decreases m - i,
{
    if i < 0 || i >= m || m > a.len() {
    } else {
        lemma_sqn_part_nonneg(a, i + 1, m);
        assert(a[i] * a[i] >= 0) by (nonlinear_arith);
    }
}

/// A sum of squares only grows when the summed range grows.
pub proof fn lemma_sqn_part_mono(a: Seq<i64>, i: int, m1: int, m2: int)
    requires
        m1 <= m2 <= a.len(),
    ensures
        sqn_part(a, i, m1) <= sqn_part(a, i, m2),
    decreases m2 - i,
{
    if i < 0 || i >= m1 {
        lemma_sqn_part_nonneg(a, i, m2);
    } else {
        lemma_sqn_part_mono(a, i + 1, m1, m2);
    }
}

/// The dot product does not depend on the order of its arguments.
pub proof fn lemma_dot_comm(a: Seq<i64>, b: Seq<i64>)
    ensures
        dot(a, b) == dot(b, a),
{
    lemma_dot_from_comm(a, b, 0);
}

proof fn lemma_dot_from_comm(a: Seq<i64>, b: Seq<i64>, i: int)
    ensures
        dot_from(a, b, i) == dot_from(b, a, i),
    decreases min_len(a, b) - i,
{
    if i < 0 || i >= min_len(a, b) {
    } else {
        lemma_dot_from_comm(a, b, i + 1);
    }
}

/// A vector's dot product with itself is its squared norm.
pub proof fn lemma_dot_self(a: Seq<i64>)
    ensures
        dot(a, a) == sq_norm(a),
{
    lemma_dot_from_self(a, 0);
}

proof fn lemma_dot_from_self(a: Seq<i64>, i: int)
    ensures
        dot_from(a, a, i) == sqn_part(a, i, a.len() as int),
    decreases a.len() - i,
{
    if i < 0 || i >= a.len() {
    } else {
        lemma_dot_from_self(a, i + 1);
    }
}

/// The Cauchy-Schwarz inequality over the common prefix, by induction.
proof fn lemma_cauchy_schwarz_part(a: Seq<i64>, b: Seq<i64>, i: int)
    ensures
        dot_from(a, b, i) * dot_from(a, b, i) <= sqn_part(a, i, min_len(a, b)) * sqn_part(
            b,
            i,
            min_len(a, b),
        ),
    decreases min_len(a, b) - i,
{
    let m = min_len(a, b);
    if i < 0 || i >= m {
        assert(dot_from(a, b, i) == 0);
    } else {
        lemma_cauchy_schwarz_part(a, b, i + 1);
        let x = a[i] as int;
        let y = b[i] as int;
        let dd = dot_from(a, b, i + 1);
        let aa = sqn_part(a, i + 1, m);
        let bb = sqn_part(b, i + 1, m);
        lemma_sqn_part_nonneg(a, i + 1, m);
        lemma_sqn_part_nonneg(b, i + 1, m);
        // (aa*y*y + bb*x*x)^2 >= (2*dd*x*y)^2, so aa*y*y + bb*x*x >= 2*dd*x*y.
        assert((aa * y * y + bb * x * x) * (aa * y * y + bb * x * x) >= 4 * (dd * dd) * (x * x) * (y
            * y)) by (nonlinear_arith)
            requires
                dd * dd <= aa * bb,
                aa >= 0,
                bb >= 0,
        ;
        assert(aa * y * y + bb * x * x >= 2 * dd * x * y) by (nonlinear_arith)
            requires
                (aa * y * y + bb * x * x) * (aa * y * y + bb * x * x) >= 4 * (dd * dd) * (x * x) * (
                y * y),
                aa >= 0,
                bb >= 0,
        ;
        assert((x * y + dd) * (x * y + dd) == x * x * y * y + 2 * dd * x * y + dd * dd)
            by (nonlinear_arith);
        assert((x * x + aa) * (y * y + bb) == x * x * y * y + bb * x * x + aa * y * y + aa * bb)
            by (nonlinear_arith);
        assert((x * y + dd) * (x * y + dd) <= (x * x + aa) * (y * y + bb)) by {
            assert(2 * dd * x * y + dd * dd <= bb * x * x + aa * y * y + aa * bb);
        }
        assert(dot_from(a, b, i) == x * y + dd);
        assert(sqn_part(a, i, m) == x * x + aa);
        assert(sqn_part(b, i, m) == y * y + bb);
    }
}

/// Law: cosine similarity is bounded.  The dot product of two vectors
/// never exceeds the product of their norms, so the similarity
/// `dot / (|a|*|b|)` lies in the interval from -1 to 1; this is the
/// exact, square-root-free form of that statement.
pub proof fn lemma_cosine_bounded(a: Seq<i64>, b: Seq<i64>)
    ensures
        dot(a, b) * dot(a, b) <= sq_norm(a) * sq_norm(b),
{
    let m = min_len(a, b);
    lemma_cauchy_schwarz_part(a, b, 0);
    lemma_sqn_part_mono(a, 0, m, a.len() as int);
    lemma_sqn_part_mono(b, 0, m, b.len() as int);
    lemma_sqn_part_nonneg(a, 0, m);
    lemma_sqn_part_nonneg(b, 0, m);
    assert(sqn_part(a, 0, m) * sqn_part(b, 0, m) <= sq_norm(a) * sq_norm(b)) by (nonlinear_arith)
        requires
            0 <= sqn_part(a, 0, m) <= sq_norm(a),
            0 <= sqn_part(b, 0, m) <= sq_norm(b),
    ;
}

/// Law: cosine similarity is symmetric: swapping the two vectors swaps
/// neither the dot product nor the pair of norms, so the similarity
/// value is unchanged.
pub proof fn lemma_cosine_symmetric(a: Seq<i64>, b: Seq<i64>)
    ensures
        dot(a, b) == dot(b, a),
        sq_norm(a) * sq_norm(b) == sq_norm(b) * sq_norm(a),
{
    lemma_dot_comm(a, b);
}

/// Law: the similarity of a non-degenerate vector with itself is
/// exactly 1.
pub proof fn lemma_self_similarity_unit(a: Seq<i64>)
    requires
        sq_norm(a) > 0,
    ensures
        sim_is_one(sq_norm(a), score_of(sq_norm(a), dot(a, a), sq_norm(a))),
{
    lemma_dot_self(a);
    let qa = sq_norm(a);
    assert(qa * qa == qa * qa);
}

/// Law: no candidate is ever strictly more similar to a query than the
/// query itself; together with `lemma_self_similarity_unit` this pins
/// every similarity at or below 1.
pub proof fn lemma_self_similarity_maximal(a: Seq<i64>, b: Seq<i64>)
    requires
        sq_norm(a) > 0,
    ensures
        !sim_lt(
            sq_norm(a),
            score_of(sq_norm(a), dot(a, a), sq_norm(a)),
            score_of(sq_norm(a), dot(a, b), sq_norm(b)),
        ),
{
    let qa = sq_norm(a);
    let qb = sq_norm(b);
    let d = dot(a, b);
    lemma_dot_self(a);
    lemma_cosine_bounded(a, b);
    if qb > 0 {
        assert(!(qa * qa * qb < d * d * qa)) by (nonlinear_arith)
            requires
                d * d <= qa * qb,
                qa > 0,
                qb > 0,
        ;
    }
}

/// Law: no score built from actual vectors lies strictly below the
/// degenerate sentinel -1.
pub proof fn lemma_similarity_at_least_minus_one(a: Seq<i64>, b: Seq<i64>)
    ensures
        !sim_lt(
            sq_norm(a),
            score_of(sq_norm(a), dot(a, b), sq_norm(b)),
            ScoreV::Degenerate,
        ),
{
    lemma_cosine_bounded(a, b);
}

/// Strict transitivity of the similarity order.
pub proof fn lemma_sim_lt_trans(qx: int, s1: ScoreV, s2: ScoreV, s3: ScoreV)
    requires
        score_ok(qx, s1),
        score_ok(qx, s2),
        score_ok(qx, s3),
        sim_lt(qx, s1, s2),
        sim_lt(qx, s2, s3),
    ensures
        sim_lt(qx, s1, s3),
{
    match (s1, s2, s3) {
        (
            ScoreV::Fin { d: d1, q: q1 },
            ScoreV::Fin { d: d2, q: q2 },
            ScoreV::Fin { d: d3, q: q3 },
        ) => {
            if d1 >= 0 && d2 >= 0 && d3 >= 0 {
                assert(d1 * d1 * q3 < d3 * d3 * q1) by (nonlinear_arith)
                    requires
                        d1 * d1 * q2 < d2 * d2 * q1,
                        d2 * d2 * q3 < d3 * d3 * q2,
                        q1 > 0,
                        q2 > 0,
                        q3 > 0,
                ;
            } else if d1 < 0 && d2 < 0 && d3 < 0 {
                assert(d1 * d1 * q3 > d3 * d3 * q1) by (nonlinear_arith)
                    requires
                        d1 * d1 * q2 > d2 * d2 * q1,
                        d2 * d2 * q3 > d3 * d3 * q2,
                        q1 > 0,
                        q2 > 0,
                        q3 > 0,
                ;
            }
        },
        (ScoreV::Degenerate, ScoreV::Fin { d: d2, q: q2 }, ScoreV::Fin { d: d3, q: q3 }) => {
            if d2 < 0 && d3 < 0 {
                assert(d3 * d3 < qx * q3) by (nonlinear_arith)
                    requires
                        d2 * d2 < qx * q2,
                        d2 * d2 * q3 > d3 * d3 * q2,
                        q2 > 0,
                        q3 > 0,
                ;
            }
        },
        (ScoreV::Fin { d: d1, q: q1 }, ScoreV::Degenerate, ScoreV::Fin { d: d3, q: q3 }) => {
            if d3 < 0 {
                assert(d1 * d1 * q3 > d3 * d3 * q1) by (nonlinear_arith)
                    requires
                        d1 * d1 > qx * q1,
                        d3 * d3 < qx * q3,
                        q1 > 0,
                        q3 > 0,
                        qx > 0,
                ;
            }
        },
        (ScoreV::Fin { d: d1, q: q1 }, ScoreV::Fin { d: d2, q: q2 }, ScoreV::Degenerate) => {
            assert(d1 * d1 > qx * q1) by (nonlinear_arith)
                requires
                    d1 * d1 * q2 > d2 * d2 * q1,
                    d2 * d2 > qx * q2,
                    q1 > 0,
                    q2 > 0,
            ;
        },
        _ => {},
    }
}

/// The composition a scanning argmax needs: if candidate `j` is no
/// better than the current best `b`, and a newcomer `n` strictly beats
/// `b`, then `n` strictly beats `j` as well.
pub proof fn lemma_sim_nlt_lt_trans(qx: int, sj: ScoreV, sb: ScoreV, sn: ScoreV)
    requires
        score_ok(qx, sj),
        score_ok(qx, sb),
        score_ok(qx, sn),
        !sim_lt(qx, sb, sj),
        sim_lt(qx, sb, sn),
    ensures
        sim_lt(qx, sj, sn),
{
    match (sj, sb, sn) {
        (
            ScoreV::Fin { d: dj, q: qj },
            ScoreV::Fin { d: db, q: qb },
            ScoreV::Fin { d: dn, q: qn },
        ) => {
            if db >= 0 && dn >= 0 {
                if dj >= 0 {
                    assert(dj * dj * qn < dn * dn * qj) by (nonlinear_arith)
                        requires
                            dj * dj * qb <= db * db * qj,
                            db * db * qn < dn * dn * qb,
                            qj > 0,
                            qb > 0,
                            qn > 0,
                    ;
                }
            } else if db < 0 && dn >= 0 {
                // j is no better than the negative b, so dj < 0 too.
            } else if db < 0 && dn < 0 {
                assert(dj * dj * qn > dn * dn * qj) by (nonlinear_arith)
                    requires
                        dj * dj * qb >= db * db * qj,
                        db * db * qn > dn * dn * qb,
                        qj > 0,
                        qb > 0,
                        qn > 0,
                ;
            }
        },
        (
            ScoreV::Degenerate,
            ScoreV::Fin { d: db, q: qb },
            ScoreV::Fin { d: dn, q: qn },
        ) => {
            if db < 0 && dn < 0 {
                assert(dn * dn < qx * qn) by (nonlinear_arith)
                    requires
                        db * db <= qx * qb,
                        db * db * qn > dn * dn * qb,
                        qb > 0,
                        qn > 0,
                ;
            }
        },
        (
            ScoreV::Fin { d: dj, q: qj },
            ScoreV::Degenerate,
            ScoreV::Fin { d: dn, q: qn },
        ) => {
            if dj < 0 && dn < 0 {
                assert(dj * dj * qn > dn * dn * qj) by (nonlinear_arith)
                    requires
                        dj * dj >= qx * qj,
                        dn * dn < qx * qn,
                        qj > 0,
                        qn > 0,
                        qx > 0,
                ;
            }
        },
        (
            ScoreV::Fin { d: dj, q: qj },
            ScoreV::Fin { d: db, q: qb },
            ScoreV::Degenerate,
        ) => {
            if dj < 0 && db < 0 {
                assert(dj * dj > qx * qj) by (nonlinear_arith)
                    requires
                        dj * dj * qb >= db * db * qj,
                        db * db > qx * qb,
                        qj > 0,
                        qb > 0,
                ;
            }
        },
        _ => {},
    }
}

} // verus!
