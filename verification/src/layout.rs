//! Force-directed layout: one discrete simulation step.
//!
//! Every unordered node pair repels with strength `K_REPEL / distance^2`
//! (distance-squared clamped below by `MIN_D2` to avoid singularities);
//! every edge attracts its endpoints with strength
//! `(distance - IDEAL_LEN) / ATTRACT_DIV`, directed along the edge. The
//! per-node displacement is the sum of all contributions, clamped to
//! `MAX_DISP`, and the resulting coordinate is clamped back into the
//! working range. Iteration order is fixed (ascending node id, then
//! ascending neighbor id, then edge insertion order), so a step is a pure
//! function of the stored graph. Coincident nodes exert no force on each
//! other: the displacement direction is taken from the coordinate deltas,
//! which are all zero for coincident nodes. Duplicate edges pull twice.

use vstd::arithmetic::div_mod::{lemma_div_is_ordered, lemma_div_multiples_vanish};
use vstd::prelude::*;

use crate::graph::{coords_ok, topology_ok, GraphProcessor, MAX_COORD};
use crate::math::{abs_i, clamp_i, is_isqrt, isqrt, isqrt_spec, sgn_i};

verus! {

/// Repulsion strength: displacement `K_REPEL / d^2` at distance `d`.
pub const K_REPEL: u64 = 1_000_000;

/// Squared distances are clamped below by this before use.
pub const MIN_D2: u64 = 100;

/// Rest length of an edge, in fixed-point coordinate units.
pub const IDEAL_LEN: u64 = 1000;

/// Attraction divisor: displacement `(d - IDEAL_LEN) / ATTRACT_DIV`.
pub const ATTRACT_DIV: u64 = 10;

/// A node moves at most this far along each axis in one step.
pub const MAX_DISP: i64 = 10_000;

/// Coordinate `c` (0, 1 or 2 for x, y, z) of node `i`.
pub open spec fn coord(nodes: Seq<i64>, i: int, c: int) -> int {
    nodes[3 * i + c] as int
}

/// Difference of coordinate `c` between nodes `i` and `j`.
pub open spec fn delta_c(nodes: Seq<i64>, i: int, j: int, c: int) -> int {
    coord(nodes, i, c) - coord(nodes, j, c)
}

/// Squared Euclidean distance between nodes `i` and `j`.
pub open spec fn pair_d2(nodes: Seq<i64>, i: int, j: int) -> int {
    delta_c(nodes, i, j, 0) * delta_c(nodes, i, j, 0)
        + delta_c(nodes, i, j, 1) * delta_c(nodes, i, j, 1)
        + delta_c(nodes, i, j, 2) * delta_c(nodes, i, j, 2)
}

/// Squared distance, clamped below by `MIN_D2`.
pub open spec fn clamped_d2(nodes: Seq<i64>, i: int, j: int) -> int {
    let d2: int = pair_d2(nodes, i, j);
    if d2 < MIN_D2 as int { MIN_D2 as int } else { d2 }
}

/// Distance between nodes `i` and `j`: the integer square root of the
/// clamped squared distance.
pub open spec fn pair_dist(nodes: Seq<i64>, i: int, j: int) -> int {
    isqrt_spec(clamped_d2(nodes, i, j))
}

/// Repulsive displacement of node `i` away from node `j`, along axis `c`:
/// magnitude `|delta| * K_REPEL / (d^2 * d)`, i.e. `K_REPEL / d^2` in the
/// direction from `j` to `i`.
pub open spec fn repel_term(nodes: Seq<i64>, i: int, j: int, c: int) -> int {
    let d2: int = clamped_d2(nodes, i, j);
    let d: int = pair_dist(nodes, i, j);
    let dc: int = delta_c(nodes, i, j, c);
    sgn_i(dc) * ((abs_i(dc) * K_REPEL as int) / (d2 * d))
}

/// Sum of the repulsive displacements of node `i` along axis `c` from all
/// nodes `j < upto`, `j != i`.
pub open spec fn repel_sum(nodes: Seq<i64>, i: int, c: int, upto: int) -> int
    decreases upto,
{
    if upto <= 0 {
        0
    } else if upto - 1 == i {
        repel_sum(nodes, i, c, upto - 1)
    } else {
        repel_sum(nodes, i, c, upto - 1) + repel_term(nodes, i, upto - 1, c)
    }
}

/// Spring displacement of node `i` along axis `c` from an edge to node
/// `j`: magnitude `|delta| * |d - IDEAL_LEN| / (d * ATTRACT_DIV)`, toward
/// `j` when the edge is longer than `IDEAL_LEN` and away from `j` when it
/// is shorter.
pub open spec fn attract_term(nodes: Seq<i64>, i: int, j: int, c: int) -> int {
    let d: int = pair_dist(nodes, i, j);
    let dc: int = delta_c(nodes, i, j, c);
    let diff: int = d - IDEAL_LEN as int;
    -sgn_i(dc) * sgn_i(diff) * ((abs_i(dc) * abs_i(diff)) / (d * ATTRACT_DIV as int))
}

/// Sum of the spring displacements of node `i` along axis `c` from the
/// first `upto` edges. A self-loop exerts no force; an edge not incident
/// to `i` contributes nothing.
pub open spec fn attract_sum(nodes: Seq<i64>, edges: Seq<u32>, i: int, c: int, upto: int) -> int
    decreases upto,
{
    if upto <= 0 {
        0
    } else {
        let t: int = upto - 1;
        let a: int = edges[2 * t] as int;
        let b: int = edges[2 * t + 1] as int;
        let prev: int = attract_sum(nodes, edges, i, c, t);
        if a == i && b != i {
            prev + attract_term(nodes, i, b, c)
        } else if b == i && a != i {
            prev + attract_term(nodes, i, a, c)
        } else {
            prev
        }
    }
}

/// Total unclamped displacement of node `i` along axis `c`.
pub open spec fn raw_disp(nodes: Seq<i64>, edges: Seq<u32>, i: int, c: int) -> int {
    repel_sum(nodes, i, c, nodes.len() as int / 3)
        + attract_sum(nodes, edges, i, c, edges.len() as int / 2)
}

/// Entry `k` of the flat coordinate array after one step: the old value
/// plus the displacement (clamped to `MAX_DISP`), clamped back into the
/// coordinate range.
pub open spec fn new_coord(nodes: Seq<i64>, edges: Seq<u32>, k: int) -> int {
    let i: int = k / 3;
    let c: int = k % 3;
    clamp_i(
        coord(nodes, i, c) + clamp_i(raw_disp(nodes, edges, i, c), MAX_DISP as int),
        MAX_COORD as int,
    )
}

/// The full position array after one layout step.
pub open spec fn step_spec(nodes: Seq<i64>, edges: Seq<u32>) -> Seq<i64> {
    Seq::new(nodes.len(), |k: int| new_coord(nodes, edges, k) as i64)
}

/// Whole triplets: entry `3 * i + c` of node `i` is in range.
pub(crate) proof fn lemma_triplet_index(len: int, i: int, c: int)
    requires
        len % 3 == 0,
        0 <= i < len / 3,
        0 <= c < 3,
    ensures
        0 <= 3 * i + c < len,
{
    assert(len == 3 * (len / 3));
}

/// Whole pairs: entries `2 * t` and `2 * t + 1` of edge `t` are in range.
pub(crate) proof fn lemma_pair_index(len: int, t: int)
    requires
        len % 2 == 0,
        0 <= t < len / 2,
    ensures
        0 <= 2 * t + 1 < len,
{
    assert(len == 2 * (len / 2));
}

/// Clamped squared distance and distance between nodes `i` and `j`.
fn pair_geometry(nodes: &Vec<i64>, i: usize, j: usize) -> (g: (u64, u64))
    requires
        nodes@.len() % 3 == 0,
        coords_ok(nodes@),
        (i as int) < nodes@.len() as int / 3,
        (j as int) < nodes@.len() as int / 3,
    ensures
        g.0 as int == clamped_d2(nodes@, i as int, j as int),
        g.1 as int == pair_dist(nodes@, i as int, j as int),
        is_isqrt(g.0 as int, g.1 as int),
        g.0 >= 100,
        10 <= g.1 <= 4_000_000_000,
{
    let nlen: usize = nodes.len();
    proof {
        lemma_triplet_index(nodes@.len() as int, i as int, 0);
        lemma_triplet_index(nodes@.len() as int, i as int, 1);
        lemma_triplet_index(nodes@.len() as int, i as int, 2);
        lemma_triplet_index(nodes@.len() as int, j as int, 0);
        lemma_triplet_index(nodes@.len() as int, j as int, 1);
        lemma_triplet_index(nodes@.len() as int, j as int, 2);
    }
    let dx: i128 = nodes[3 * i] as i128 - nodes[3 * j] as i128;
    let dy: i128 = nodes[3 * i + 1] as i128 - nodes[3 * j + 1] as i128;
    let dz: i128 = nodes[3 * i + 2] as i128 - nodes[3 * j + 2] as i128;
    assert(dx == delta_c(nodes@, i as int, j as int, 0));
    assert(dy == delta_c(nodes@, i as int, j as int, 1));
    assert(dz == delta_c(nodes@, i as int, j as int, 2));
    assert(dx * dx <= 4_000_000_000_000_000_000 && dx * dx >= 0) by (nonlinear_arith)
        requires -2_000_000_000 <= dx <= 2_000_000_000;
    assert(dy * dy <= 4_000_000_000_000_000_000 && dy * dy >= 0) by (nonlinear_arith)
        requires -2_000_000_000 <= dy <= 2_000_000_000;
    assert(dz * dz <= 4_000_000_000_000_000_000 && dz * dz >= 0) by (nonlinear_arith)
        requires -2_000_000_000 <= dz <= 2_000_000_000;
    let d2: i128 = dx * dx + dy * dy + dz * dz;
    assert(d2 == pair_d2(nodes@, i as int, j as int));
    let d2c: u64 = if d2 < 100i128 { 100u64 } else { d2 as u64 };
    assert(d2c as int == clamped_d2(nodes@, i as int, j as int));
    let d: u64 = isqrt(d2c);
    proof {
        if (d as int) < 10 {
            assert((d as int + 1) * (d as int + 1) <= 10 * 10) by (nonlinear_arith)
                requires 0 <= d as int, d as int + 1 <= 10;
            assert(false);
        }
        if (d as int) > 4_000_000_000 {
            assert((d as int) * (d as int) > 12_000_000_000_000_000_000) by (nonlinear_arith)
                requires d as int > 4_000_000_000;
            assert(false);
        }
    }
    (d2c, d)
}

/// `|delta_c| <= d` on every axis: a coordinate delta is bounded by the
/// (clamped) distance.
pub(crate) proof fn lemma_delta_le_dist(nodes: Seq<i64>, i: int, j: int, c: int)
    requires
        0 <= c < 3,
    ensures
        abs_i(delta_c(nodes, i, j, c)) <= pair_dist(nodes, i, j),
{
    let dc = delta_c(nodes, i, j, c);
    let d2 = clamped_d2(nodes, i, j);
    let d = pair_dist(nodes, i, j);
    assert(dc * dc <= pair_d2(nodes, i, j)) by (nonlinear_arith)
        requires
            dc == delta_c(nodes, i, j, 0) || dc == delta_c(nodes, i, j, 1) || dc == delta_c(
                nodes,
                i,
                j,
                2,
            ),
            pair_d2(nodes, i, j) == delta_c(nodes, i, j, 0) * delta_c(nodes, i, j, 0) + delta_c(
                nodes,
                i,
                j,
                1,
            ) * delta_c(nodes, i, j, 1) + delta_c(nodes, i, j, 2) * delta_c(nodes, i, j, 2);
    crate::math::lemma_isqrt_exists(d2);
    assert(is_isqrt(d2, d));
    if abs_i(dc) > d {
        assert(dc * dc >= (d + 1) * (d + 1)) by (nonlinear_arith)
            requires 0 <= d, d + 1 <= abs_i(dc), abs_i(dc) == if dc < 0 { -dc } else { dc };
        assert(false);
    }
}

/// How a product of two signs and a nonnegative magnitude evaluates.
proof fn lemma_sign_product(s1: int, s2: int, q: int, r: int) by (nonlinear_arith)
    requires
        s1 == 1 || s1 == -1 || s1 == 0,
        s2 == 1 || s2 == -1 || s2 == 0,
        r == -s1 * s2 * q,
    ensures
        (s1 == 0 || s2 == 0) ==> r == 0,
        (s1 == s2 && s1 != 0) ==> r == -q,
        (s1 != s2 && s1 != 0 && s2 != 0) ==> r == q,
{
}

/// Repulsive displacement of node `i` from node `j` along axis `c`.
fn repel_term_exec(nodes: &Vec<i64>, i: usize, j: usize, c: usize) -> (r: i64)
    requires
        nodes@.len() % 3 == 0,
        coords_ok(nodes@),
        (i as int) < nodes@.len() as int / 3,
        (j as int) < nodes@.len() as int / 3,
        c < 3,
    ensures
        r as int == repel_term(nodes@, i as int, j as int, c as int),
        -10_000 <= r <= 10_000,
{
    let nlen: usize = nodes.len();
    let ghost ii: int = i as int;
    let ghost jj: int = j as int;
    let ghost cc: int = c as int;
    let (d2c, d) = pair_geometry(nodes, i, j);
    proof {
        lemma_triplet_index(nodes@.len() as int, ii, cc);
        lemma_triplet_index(nodes@.len() as int, jj, cc);
        lemma_delta_le_dist(nodes@, ii, jj, cc);
    }
    let pc: i64 = nodes[3 * i + c];
    let qc: i64 = nodes[3 * j + c];
    assert(pc as int - qc as int == delta_c(nodes@, ii, jj, cc));
    let ac: u64 = if pc >= qc { (pc - qc) as u64 } else { (qc - pc) as u64 };
    assert(ac as int == abs_i(delta_c(nodes@, ii, jj, cc)));
    assert(ac <= d);
    let num: u128 = (ac as u128) * 1_000_000u128;
    assert(num == (ac as int) * 1_000_000);
    proof {
        assert((d2c as int) * (d as int) >= 1000 && (d2c as int) * (d as int)
            <= 100_000_000_000_000_000_000_000_000_000) by (nonlinear_arith)
            requires
                100 <= d2c as int <= 18_446_744_073_709_551_615,
                10 <= d as int <= 4_000_000_000;
    }
    let den: u128 = (d2c as u128) * (d as u128);
    let mag: u128 = num / den;
    proof {
        assert(num as int <= (den as int) * 10_000) by (nonlinear_arith)
            requires
                num as int == (ac as int) * 1_000_000,
                den as int == (d2c as int) * (d as int),
                0 <= ac as int <= d as int,
                d2c as int >= 100,
                d as int >= 10;
        lemma_div_is_ordered(num as int, (den as int) * 10_000, den as int);
        lemma_div_multiples_vanish(10_000, den as int);
        assert((den as int) * 10_000 == (den as int) * 10_000int);
        assert(mag as int <= 10_000);
        assert(mag as int == (abs_i(delta_c(nodes@, ii, jj, cc)) * (K_REPEL as int)) / (clamped_d2(
            nodes@,
            ii,
            jj,
        ) * pair_dist(nodes@, ii, jj)));
    }
    if pc > qc {
        assert(sgn_i(delta_c(nodes@, ii, jj, cc)) == 1);
        mag as i64
    } else if pc < qc {
        assert(sgn_i(delta_c(nodes@, ii, jj, cc)) == -1);
        -(mag as i64)
    } else {
        assert(mag == 0);
        0i64
    }
}

/// Spring displacement of node `i` from an edge to node `j`, along axis
/// `c`.
fn attract_term_exec(nodes: &Vec<i64>, i: usize, j: usize, c: usize) -> (r: i64)
    requires
        nodes@.len() % 3 == 0,
        coords_ok(nodes@),
        (i as int) < nodes@.len() as int / 3,
        (j as int) < nodes@.len() as int / 3,
        c < 3,
    ensures
        r as int == attract_term(nodes@, i as int, j as int, c as int),
        -500_000_000 <= r <= 500_000_000,
{
    let nlen: usize = nodes.len();
    let ghost ii: int = i as int;
    let ghost jj: int = j as int;
    let ghost cc: int = c as int;
    let (d2c, d) = pair_geometry(nodes, i, j);
    proof {
        lemma_triplet_index(nodes@.len() as int, ii, cc);
        lemma_triplet_index(nodes@.len() as int, jj, cc);
        lemma_delta_le_dist(nodes@, ii, jj, cc);
    }
    let pc: i64 = nodes[3 * i + c];
    let qc: i64 = nodes[3 * j + c];
    assert(pc as int - qc as int == delta_c(nodes@, ii, jj, cc));
    let ac: u64 = if pc >= qc { (pc - qc) as u64 } else { (qc - pc) as u64 };
    assert(ac as int == abs_i(delta_c(nodes@, ii, jj, cc)));
    assert(ac <= d);
    let adiff: u64 = if d >= 1000u64 { d - 1000 } else { 1000 - d };
    assert(adiff as int == abs_i(d as int - 1000));
    proof {
        assert((ac as int) * (adiff as int) <= 20_000_000_000_000_000_000) by (nonlinear_arith)
            requires
                0 <= ac as int <= 4_000_000_000,
                0 <= adiff as int <= 4_000_001_000;
    }
    let num: u128 = (ac as u128) * (adiff as u128);
    assert(num == (ac as int) * (adiff as int));
    let den: u128 = (d as u128) * 10u128;
    assert(den == (d as int) * 10 && den >= 100);
    let mag: u128 = num / den;
    proof {
        assert(num as int <= (den as int) * 500_000_000) by (nonlinear_arith)
            requires
                num as int == (ac as int) * (adiff as int),
                den as int == (d as int) * 10,
                0 <= ac as int <= d as int,
                0 <= adiff as int <= (d as int) + 1000,
                10 <= d as int <= 4_000_000_000;
        lemma_div_is_ordered(num as int, (den as int) * 500_000_000, den as int);
        lemma_div_multiples_vanish(500_000_000, den as int);
        assert(mag as int <= 500_000_000);
        assert(mag as int == (abs_i(delta_c(nodes@, ii, jj, cc)) * abs_i(
            pair_dist(nodes@, ii, jj) - (IDEAL_LEN as int),
        )) / (pair_dist(nodes@, ii, jj) * (ATTRACT_DIV as int)));
    }
    let ghost dc: int = delta_c(nodes@, ii, jj, cc);
    let ghost diff: int = pair_dist(nodes@, ii, jj) - (IDEAL_LEN as int);
    proof {
        assert(attract_term(nodes@, ii, jj, cc) == -sgn_i(dc) * sgn_i(diff) * (mag as int));
        lemma_sign_product(sgn_i(dc), sgn_i(diff), mag as int, attract_term(nodes@, ii, jj, cc));
    }
    if ac == 0 || d == 1000u64 {
        assert(sgn_i(dc) == 0 || sgn_i(diff) == 0);
        0i64
    } else if (pc > qc) == (d > 1000u64) {
        // Delta positive on an overlong edge (pull down), or delta
        // negative on a short edge (push further down): move along -c.
        proof {
            if pc > qc {
                assert(sgn_i(dc) == 1 && sgn_i(diff) == 1);
            } else {
                assert(pc < qc && d < 1000);
                assert(sgn_i(dc) == -1 && sgn_i(diff) == -1);
            }
        }
        -(mag as i64)
    } else {
        proof {
            if pc > qc {
                assert(sgn_i(dc) == 1 && sgn_i(diff) == -1);
            } else {
                assert(sgn_i(dc) == -1 && sgn_i(diff) == 1);
            }
        }
        mag as i64
    }
}

/// Displacement of node `i` along axis `c`: all repulsions plus all
/// spring forces, clamped to `MAX_DISP`.
fn node_disp(nodes: &Vec<i64>, edges: &Vec<u32>, i: usize, c: usize) -> (r: i64)
    requires
        nodes@.len() % 3 == 0,
        edges@.len() % 2 == 0,
        coords_ok(nodes@),
        topology_ok(nodes@, edges@),
        (i as int) < nodes@.len() as int / 3,
        c < 3,
    ensures
        r as int == clamp_i(raw_disp(nodes@, edges@, i as int, c as int), MAX_DISP as int),
{
    let n: usize = nodes.len() / 3;
    let mut acc: i128 = 0;
    let mut j: usize = 0;
    while j < n
        invariant
            j <= n,
            n as int == nodes@.len() as int / 3,
            nodes@.len() % 3 == 0,
            coords_ok(nodes@),
            (i as int) < n as int,
            c < 3,
            acc as int == repel_sum(nodes@, i as int, c as int, j as int),
            -(j as int) * 10_000 <= acc as int <= (j as int) * 10_000,
        decreases n - j,
    {
        if j != i {
            let term: i64 = repel_term_exec(nodes, i, j, c);
            acc = acc + term as i128;
        }
        j = j + 1;
    }
    let m: usize = edges.len() / 2;
    let mut t: usize = 0;
    while t < m
        invariant
            t <= m,
            m as int == edges@.len() as int / 2,
            n as int == nodes@.len() as int / 3,
            nodes@.len() % 3 == 0,
            edges@.len() % 2 == 0,
            coords_ok(nodes@),
            topology_ok(nodes@, edges@),
            (i as int) < n as int,
            c < 3,
            acc as int == repel_sum(nodes@, i as int, c as int, n as int) + attract_sum(
                nodes@,
                edges@,
                i as int,
                c as int,
                t as int,
            ),
            -(n as int) * 10_000 - (t as int) * 500_000_000 <= acc as int <= (n as int) * 10_000 + (
            t as int) * 500_000_000,
        decreases m - t,
    {
        let elen: usize = edges.len();
        proof {
            lemma_pair_index(edges@.len() as int, t as int);
        }
        let a: usize = edges[2 * t] as usize;
        let b: usize = edges[2 * t + 1] as usize;
        if a == i && b != i {
            let term: i64 = attract_term_exec(nodes, i, b, c);
            acc = acc + term as i128;
        } else if b == i && a != i {
            let term: i64 = attract_term_exec(nodes, i, a, c);
            acc = acc + term as i128;
        }
        t = t + 1;
    }
    if acc > 10_000i128 {
        10_000i64
    } else if acc < -10_000i128 {
        -10_000i64
    } else {
        acc as i64
    }
}

impl GraphProcessor {
    /// One force-directed layout step. Mutates the stored positions in
    /// place and returns a snapshot of the updated flat position array.
    /// The result is a pure function of the stored graph: identical state
    /// gives identical output.
    pub fn step_layout(&mut self) -> (r: Vec<i64>)
        requires
            old(self).wf(),
        ensures
            final(self).wf(),
            final(self).nodes@ == step_spec(old(self).nodes@, old(self).edges@),
            final(self).edges@ == old(self).edges@,
            r@ == final(self).nodes@,
    {
        let ghost nodes0 = self.nodes@;
        let ghost edges0 = self.edges@;
        let len: usize = self.nodes.len();
        let mut out: Vec<i64> = Vec::new();
        let mut k: usize = 0;
        while k < len
            invariant
                k <= len,
                len == nodes0.len(),
                self.nodes@ == nodes0,
                self.edges@ == edges0,
                old(self).wf(),
                out@.len() == k as int,
                forall|q: int| 0 <= q < k ==> out@[q] == step_spec(nodes0, edges0)[q],
            decreases len - k,
        {
            let i: usize = k / 3;
            let c: usize = k % 3;
            assert(3 * (i as int) + c as int == k as int);
            assert((i as int) < nodes0.len() as int / 3);
            let disp: i64 = node_disp(&self.nodes, &self.edges, i, c);
            let base: i64 = self.nodes[k];
            assert(base as int == coord(nodes0, i as int, c as int));
            let moved: i64 = base + disp;
            let v: i64 = if moved > MAX_COORD {
                MAX_COORD
            } else if moved < -MAX_COORD {
                -MAX_COORD
            } else {
                moved
            };
            assert(v as int == new_coord(nodes0, edges0, k as int));
            out.push(v);
            k = k + 1;
        }
        proof {
            assert(out@ =~= step_spec(nodes0, edges0));
        }
        let snapshot: Vec<i64> = copy_positions(&out);
        self.nodes = out;
        snapshot
    }
}

/// A fresh copy of a flat position array.
fn copy_positions(v: &Vec<i64>) -> (r: Vec<i64>)
    ensures
        r@ == v@,
{
    let mut r: Vec<i64> = Vec::new();
    let mut k: usize = 0;
    while k < v.len()
        invariant
            k <= v@.len(),
            r@.len() == k as int,
            forall|q: int| 0 <= q < k ==> r@[q] == v@[q],
        decreases v@.len() - k,
    {
        r.push(v[k]);
        k = k + 1;
    }
    proof {
        assert(r@ =~= v@);
    }
    r
}

} // verus!
