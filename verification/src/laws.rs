//! System-wide laws, stated over the specification functions that the
//! public operations are proved to implement.

use vstd::prelude::*;

use vstd::arithmetic::div_mod::lemma_basic_div;
use vstd::arithmetic::div_mod::lemma_div_is_ordered;
use vstd::arithmetic::div_mod::lemma_div_multiples_vanish;
use vstd::arithmetic::div_mod::lemma_div_multiples_vanish_fancy;

use crate::community::{
    best_upto, deg_upto, degree, detect_spec, ident_assignment, k_in, k_in_upto, move_of,
    pass_from, passes, score, sigma_excl, sigma_upto, MAX_PASSES,
};
use crate::layout::{
    attract_sum, attract_term, clamped_d2, coord, delta_c, new_coord, pair_d2, pair_dist,
    raw_disp, repel_sum, repel_term, step_spec, ATTRACT_DIV, IDEAL_LEN, K_REPEL,
};
use crate::math::{abs_i, clamp_i, is_isqrt, lemma_isqrt_exists, sgn_i};

verus! {

/// Magnitude of the repulsive displacement of node `i` from node `j`
/// along axis `c`.
spec fn repel_mag(nodes: Seq<i64>, i: int, j: int, c: int) -> int {
    (abs_i(delta_c(nodes, i, j, c)) * (K_REPEL as int)) / (clamped_d2(nodes, i, j) * pair_dist(
        nodes,
        i,
        j,
    ))
}

/// Magnitude of the spring displacement of node `i` along axis `c` for an
/// edge to node `j`.
spec fn attract_mag(nodes: Seq<i64>, i: int, j: int, c: int) -> int {
    (abs_i(delta_c(nodes, i, j, c)) * abs_i(pair_dist(nodes, i, j) - (IDEAL_LEN as int))) / (
    pair_dist(nodes, i, j) * (ATTRACT_DIV as int))
}

/// Distances are symmetric in the pair.
proof fn lemma_pair_symm(nodes: Seq<i64>, i: int, j: int)
    ensures
        pair_d2(nodes, j, i) == pair_d2(nodes, i, j),
        clamped_d2(nodes, j, i) == clamped_d2(nodes, i, j),
        pair_dist(nodes, j, i) == pair_dist(nodes, i, j),
{
    let a0 = delta_c(nodes, i, j, 0);
    let a1 = delta_c(nodes, i, j, 1);
    let a2 = delta_c(nodes, i, j, 2);
    assert(delta_c(nodes, j, i, 0) == -a0);
    assert(delta_c(nodes, j, i, 1) == -a1);
    assert(delta_c(nodes, j, i, 2) == -a2);
    assert(pair_d2(nodes, j, i) == pair_d2(nodes, i, j)) by (nonlinear_arith)
        requires
            pair_d2(nodes, j, i) == (-a0) * (-a0) + (-a1) * (-a1) + (-a2) * (-a2),
            pair_d2(nodes, i, j) == a0 * a0 + a1 * a1 + a2 * a2;
}

/// The distance is at least 10 (the clamp floor's square root).
proof fn lemma_dist_low(nodes: Seq<i64>, i: int, j: int)
    ensures
        clamped_d2(nodes, i, j) >= 100,
        is_isqrt(clamped_d2(nodes, i, j), pair_dist(nodes, i, j)),
        pair_dist(nodes, i, j) >= 10,
{
    let d2 = clamped_d2(nodes, i, j);
    let d = pair_dist(nodes, i, j);
    assert(d2 >= 100) by (nonlinear_arith)
        requires
            d2 == if pair_d2(nodes, i, j) < 100 { 100int } else { pair_d2(nodes, i, j) },
            pair_d2(nodes, i, j) == delta_c(nodes, i, j, 0) * delta_c(nodes, i, j, 0) + delta_c(
                nodes,
                i,
                j,
                1,
            ) * delta_c(nodes, i, j, 1) + delta_c(nodes, i, j, 2) * delta_c(nodes, i, j, 2);
    lemma_isqrt_exists(d2);
    if d < 10 {
        assert((d + 1) * (d + 1) <= 100) by (nonlinear_arith)
            requires 0 <= d, d + 1 <= 10;
        assert(false);
    }
}

/// The repulsion term decomposed into sign and magnitude, the magnitude's
/// bounds, and antisymmetry of the pair.
proof fn lemma_repel_decomp(nodes: Seq<i64>, i: int, j: int, c: int)
    requires
        0 <= c < 3,
    ensures
        repel_term(nodes, i, j, c) == sgn_i(delta_c(nodes, i, j, c)) * repel_mag(nodes, i, j, c),
        0 <= repel_mag(nodes, i, j, c) <= 10_000,
        repel_term(nodes, j, i, c) == -repel_term(nodes, i, j, c),
        repel_mag(nodes, j, i, c) == repel_mag(nodes, i, j, c),
{
    let a = delta_c(nodes, i, j, c);
    let d2 = clamped_d2(nodes, i, j);
    let d = pair_dist(nodes, i, j);
    lemma_dist_low(nodes, i, j);
    crate::layout::lemma_delta_le_dist(nodes, i, j, c);
    let num = abs_i(a) * (K_REPEL as int);
    let den = d2 * d;
    assert(den >= 1000 && 0 <= num && num <= den * 10_000) by (nonlinear_arith)
        requires
            d2 >= 100,
            d >= 10,
            0 <= abs_i(a) <= d,
            num == abs_i(a) * 1_000_000,
            den == d2 * d;
    lemma_div_is_ordered(num, den * 10_000, den);
    lemma_div_multiples_vanish(10_000, den);
    lemma_div_is_ordered(0, num, den);
    lemma_div_multiples_vanish(0, den);
    assert(den * 0 == 0);
    assert(repel_mag(nodes, i, j, c) == num / den);
    // antisymmetry
    lemma_pair_symm(nodes, i, j);
    assert(delta_c(nodes, j, i, c) == -a);
    assert(abs_i(-a) == abs_i(a));
    assert(sgn_i(-a) == -sgn_i(a));
    assert(repel_mag(nodes, j, i, c) == num / den);
    let m = num / den;
    assert(-sgn_i(a) * m == -(sgn_i(a) * m)) by (nonlinear_arith);
    assert(repel_term(nodes, j, i, c) == -sgn_i(a) * m);
}

/// With exactly two nodes and no edges, the displacement of each node is
/// its single repulsion term.
proof fn lemma_two_node_repel_only(nodes: Seq<i64>, edges: Seq<u32>, c: int)
    requires
        nodes.len() == 6,
        edges.len() == 0,
        0 <= c < 3,
    ensures
        raw_disp(nodes, edges, 0, c) == repel_term(nodes, 0, 1, c),
        raw_disp(nodes, edges, 1, c) == repel_term(nodes, 1, 0, c),
{
    assert(repel_sum(nodes, 0, c, 0) == 0);
    assert(repel_sum(nodes, 0, c, 1) == 0);
    assert(repel_sum(nodes, 0, c, 2) == repel_term(nodes, 0, 1, c));
    assert(repel_sum(nodes, 1, c, 0) == 0);
    assert(repel_sum(nodes, 1, c, 1) == repel_term(nodes, 1, 0, c));
    assert(repel_sum(nodes, 1, c, 2) == repel_term(nodes, 1, 0, c));
    assert(attract_sum(nodes, edges, 0, c, 0) == 0);
    assert(attract_sum(nodes, edges, 1, c, 0) == 0);
}

/// Multiplying a magnitude by a sign keeps its absolute value.
proof fn lemma_sign_times_mag(s: int, m: int)
    requires
        s == 1 || s == -1 || s == 0,
        m >= 0,
    ensures
        s == 1 ==> s * m == m,
        s == -1 ==> s * m == -m,
        s == 0 ==> s * m == 0,
        -m <= s * m <= m,
{
    assert(1 * m == m && (-1) * m == -m && 0 * m == 0) by (nonlinear_arith);
}

/// How the squared axis delta of the two-node pair changes when both
/// nodes move `m` outward along the delta's sign.
proof fn lemma_axis_sq_grow(a: int, s: int, m: int)
    by (nonlinear_arith)
    requires
        s == (if a > 0 { 1int } else if a < 0 { -1int } else { 0int }),
        0 <= m,
    ensures
        (a + 2 * s * m) * (a + 2 * s * m) >= a * a,
        a != 0 && m >= 1 ==> (a + 2 * s * m) * (a + 2 * s * m) >= a * a + 4,
{
}

/// On the axis with the largest delta, the repulsion magnitude is at
/// least 1 whenever the nodes are distinct and within squared distance
/// 400000.
proof fn lemma_max_axis_repels(amax: int, d2: int, d2c: int, d: int)
    requires
        1 <= amax,
        3 * amax * amax >= d2,
        1 <= d2 <= 400_000,
        d2c == (if d2 < 100 { 100int } else { d2 }),
        is_isqrt(d2c, d),
    ensures
        amax * 1_000_000 >= d2c * d,
{
    if d2 < 100 {
        assert(d == 10) by (nonlinear_arith)
            requires is_isqrt(100, d), 0 <= d;
        assert(amax * 1_000_000 >= 1_000_000) by (nonlinear_arith)
            requires amax >= 1;
    } else {
        assert(d < 2 * amax && d <= 632 && d >= 10) by (nonlinear_arith)
            requires
                d2c == d2,
                100 <= d2 <= 400_000,
                3 * amax * amax >= d2,
                amax >= 1,
                is_isqrt(d2, d);
        assert(amax * 1_000_000 >= d2c * d) by (nonlinear_arith)
            requires
                d2c == d2,
                d2 <= 400_000,
                d < 2 * amax,
                d >= 0,
                amax >= 1;
    }
}

/// The repulsion magnitude on an axis whose delta dominates the pair is
/// at least one unit.
proof fn lemma_strict_axis(amax: int, d2: int, d2c: int, d: int, m: int)
    requires
        0 <= amax,
        3 * amax * amax >= d2,
        1 <= d2 <= 400_000,
        d2c == (if d2 < 100 { 100int } else { d2 }),
        is_isqrt(d2c, d),
        m == (amax * (K_REPEL as int)) / (d2c * d),
    ensures
        m >= 1,
        amax >= 1,
{
    assert(amax >= 1) by (nonlinear_arith)
        requires 0 <= amax, 3 * amax * amax >= d2, d2 >= 1;
    lemma_max_axis_repels(amax, d2, d2c, d);
    assert(d >= 10) by (nonlinear_arith)
        requires is_isqrt(d2c, d), d2c >= 100;
    assert(d2c * d >= 1000) by (nonlinear_arith)
        requires d2c >= 100, d >= 10;
    let den = d2c * d;
    lemma_div_is_ordered(den, amax * 1_000_000, den);
    lemma_div_multiples_vanish(1, den);
    assert(den * 1 == den);
}

/// Per-axis effect of one step on a two-node, edge-free graph: the nodes
/// move `repel_mag` apart along the delta's sign, with no clamping.
proof fn lemma_p3_axis(nodes: Seq<i64>, edges: Seq<u32>, c: int)
    requires
        nodes.len() == 6,
        edges.len() == 0,
        forall|k: int| 0 <= k < nodes.len() ==> -999_990_000 <= #[trigger] nodes[k] <= 999_990_000,
        0 <= c < 3,
    ensures
        delta_c(step_spec(nodes, edges), 0, 1, c) == delta_c(nodes, 0, 1, c) + 2 * sgn_i(
            delta_c(nodes, 0, 1, c),
        ) * repel_mag(nodes, 0, 1, c),
        0 <= repel_mag(nodes, 0, 1, c) <= 10_000,
{
    let out = step_spec(nodes, edges);
    let a = delta_c(nodes, 0, 1, c);
    let s = sgn_i(a);
    lemma_repel_decomp(nodes, 0, 1, c);
    let m = repel_mag(nodes, 0, 1, c);
    lemma_two_node_repel_only(nodes, edges, c);
    lemma_sign_times_mag(s, m);
    assert(raw_disp(nodes, edges, 0, c) == s * m);
    assert(raw_disp(nodes, edges, 1, c) == -(s * m));
    assert(c / 3 == 0 && c % 3 == c);
    assert((3 + c) / 3 == 1 && (3 + c) % 3 == c);
    assert(clamp_i(s * m, 10_000) == s * m);
    assert(clamp_i(-(s * m), 10_000) == -(s * m));
    assert(coord(nodes, 0, c) == nodes[c]);
    assert(coord(nodes, 1, c) == nodes[3 + c]);
    assert(new_coord(nodes, edges, c) == coord(nodes, 0, c) + s * m);
    assert(new_coord(nodes, edges, 3 + c) == coord(nodes, 1, c) - (s * m));
    assert(out[c] as int == new_coord(nodes, edges, c));
    assert(out[3 + c] as int == new_coord(nodes, edges, 3 + c));
    assert(delta_c(out, 0, 1, c) == out[c] - out[3 + c]);
    assert(2 * s * m == 2 * (s * m)) by (nonlinear_arith);
}

/// Pure repulsion: one layout step on a two-node graph with no edges
/// strictly increases the squared pairwise distance. The nodes must be
/// distinct, within squared distance 400000 of each other (further out,
/// the integer displacement truncates to zero) and away from the
/// coordinate boundary.
pub proof fn lemma_pure_repulsion_separates(nodes: Seq<i64>, edges: Seq<u32>)
    requires
        nodes.len() == 6,
        edges.len() == 0,
        forall|k: int| 0 <= k < nodes.len() ==> -999_990_000 <= #[trigger] nodes[k] <= 999_990_000,
        1 <= pair_d2(nodes, 0, 1) <= 400_000,
    ensures
        pair_d2(step_spec(nodes, edges), 0, 1) > pair_d2(nodes, 0, 1),
{
    let out = step_spec(nodes, edges);
    let a0 = delta_c(nodes, 0, 1, 0);
    let a1 = delta_c(nodes, 0, 1, 1);
    let a2 = delta_c(nodes, 0, 1, 2);
    let s0 = sgn_i(a0);
    let s1 = sgn_i(a1);
    let s2 = sgn_i(a2);
    let m0 = repel_mag(nodes, 0, 1, 0);
    let m1 = repel_mag(nodes, 0, 1, 1);
    let m2 = repel_mag(nodes, 0, 1, 2);
    lemma_p3_axis(nodes, edges, 0);
    lemma_p3_axis(nodes, edges, 1);
    lemma_p3_axis(nodes, edges, 2);
    let n0 = delta_c(out, 0, 1, 0);
    let n1 = delta_c(out, 0, 1, 1);
    let n2 = delta_c(out, 0, 1, 2);
    lemma_axis_sq_grow(a0, s0, m0);
    lemma_axis_sq_grow(a1, s1, m1);
    lemma_axis_sq_grow(a2, s2, m2);
    let d2 = pair_d2(nodes, 0, 1);
    let d2c = clamped_d2(nodes, 0, 1);
    let d = pair_dist(nodes, 0, 1);
    lemma_dist_low(nodes, 0, 1);
    assert(d2 == a0 * a0 + a1 * a1 + a2 * a2);
    let ab0 = abs_i(a0);
    let ab1 = abs_i(a1);
    let ab2 = abs_i(a2);
    if ab0 >= ab1 && ab0 >= ab2 {
        assert(3 * ab0 * ab0 >= d2) by (nonlinear_arith)
            requires
                d2 == a0 * a0 + a1 * a1 + a2 * a2,
                ab0 == (if a0 < 0 { -a0 } else { a0 }),
                ab1 == (if a1 < 0 { -a1 } else { a1 }),
                ab2 == (if a2 < 0 { -a2 } else { a2 }),
                ab0 >= ab1,
                ab0 >= ab2;
        lemma_strict_axis(ab0, d2, d2c, d, m0);
        assert(n0 * n0 >= a0 * a0 + 4);
    } else if ab1 >= ab2 {
        assert(3 * ab1 * ab1 >= d2) by (nonlinear_arith)
            requires
                d2 == a0 * a0 + a1 * a1 + a2 * a2,
                ab0 == (if a0 < 0 { -a0 } else { a0 }),
                ab1 == (if a1 < 0 { -a1 } else { a1 }),
                ab2 == (if a2 < 0 { -a2 } else { a2 }),
                ab1 >= ab0,
                ab1 >= ab2;
        lemma_strict_axis(ab1, d2, d2c, d, m1);
        assert(n1 * n1 >= a1 * a1 + 4);
    } else {
        assert(3 * ab2 * ab2 >= d2) by (nonlinear_arith)
            requires
                d2 == a0 * a0 + a1 * a1 + a2 * a2,
                ab0 == (if a0 < 0 { -a0 } else { a0 }),
                ab1 == (if a1 < 0 { -a1 } else { a1 }),
                ab2 == (if a2 < 0 { -a2 } else { a2 }),
                ab2 >= ab0,
                ab2 >= ab1;
        lemma_strict_axis(ab2, d2, d2c, d, m2);
        assert(n2 * n2 >= a2 * a2 + 4);
    }
    assert(pair_d2(out, 0, 1) == n0 * n0 + n1 * n1 + n2 * n2);
    assert(pair_d2(out, 0, 1) > d2);
}

/// The layout step is deterministic: identical graph state produces
/// identical output positions.
pub proof fn lemma_step_layout_deterministic(
    nodes1: Seq<i64>,
    edges1: Seq<u32>,
    nodes2: Seq<i64>,
    edges2: Seq<u32>,
)
    requires
        nodes1 == nodes2,
        edges1 == edges2,
    ensures
        step_spec(nodes1, edges1) == step_spec(nodes2, edges2),
{
}

/// With no edges there is no adjacent community, so no node has a
/// candidate to move to.
proof fn lemma_no_edges_best(edges: Seq<u32>, comm: Seq<u32>, i: int, upto: int)
    requires
        edges.len() == 0,
    ensures
        best_upto(edges, comm, i, upto) == -1,
    decreases upto,
{
    if upto > 0 {
        lemma_no_edges_best(edges, comm, i, upto - 1);
        assert(k_in(edges, comm, i, upto - 1) == 0);
    }
}

/// With no edges a pass moves nothing.
proof fn lemma_no_edges_pass(edges: Seq<u32>, comm: Seq<u32>, i: int)
    requires
        edges.len() == 0,
    ensures
        pass_from(edges, comm, i) == comm,
    decreases comm.len() - i,
{
    if 0 <= i < comm.len() {
        lemma_no_edges_best(edges, comm, i, comm.len() as int);
        assert(move_of(edges, comm, i) == comm);
        lemma_no_edges_pass(edges, comm, i + 1);
    }
}

/// With no edges any number of passes leaves the assignment unchanged.
proof fn lemma_no_edges_passes(edges: Seq<u32>, comm: Seq<u32>, k: nat)
    requires
        edges.len() == 0,
    ensures
        passes(edges, comm, k) == comm,
    decreases k,
{
    if k > 0 {
        lemma_no_edges_pass(edges, comm, 0);
        lemma_no_edges_passes(edges, comm, (k - 1) as nat);
    }
}

/// On a graph with no edges, community detection returns `n` distinct
/// community ids for `n` nodes: every node stays its own singleton.
pub proof fn lemma_isolated_nodes_are_singletons(n: int, edges: Seq<u32>)
    requires
        0 <= n <= 0xFFFF_FFFF,
        edges.len() == 0,
    ensures
        detect_spec(n, edges) == ident_assignment(n),
        detect_spec(n, edges).len() == n,
        forall|i: int, j: int|
            0 <= i < j < n ==> detect_spec(n, edges)[i] != detect_spec(n, edges)[j],
{
    lemma_no_edges_passes(edges, ident_assignment(n), MAX_PASSES as nat);
    assert forall|i: int, j: int| 0 <= i < j < n implies detect_spec(n, edges)[i] != detect_spec(
        n,
        edges,
    )[j] by {
        assert(ident_assignment(n)[i] == i as u32);
        assert(ident_assignment(n)[j] == j as u32);
    }
}

/// Round trip on the empty graph: one layout step returns the empty
/// position sequence and community detection the empty partition.
pub proof fn lemma_empty_graph_round_trip()
    ensures
        step_spec(Seq::<i64>::empty(), Seq::<u32>::empty()) == Seq::<i64>::empty(),
        detect_spec(0, Seq::<u32>::empty()) == Seq::<u32>::empty(),
{
    assert(step_spec(Seq::<i64>::empty(), Seq::<u32>::empty()) =~= Seq::<i64>::empty());
    lemma_no_edges_passes(Seq::<u32>::empty(), ident_assignment(0), MAX_PASSES as nat);
    assert(ident_assignment(0) =~= Seq::<u32>::empty());
}

/// How the squared axis delta changes when both nodes move `u` inward
/// along the delta's sign, with `u` short of overshooting.
proof fn lemma_axis_sq_shrink(a: int, s: int, u: int, ab: int)
    by (nonlinear_arith)
    requires
        a > 0 ==> s == 1 && ab == a,
        a < 0 ==> s == -1 && ab == -a,
        a == 0 ==> s == 0 && ab == 0,
        0 <= u,
        a != 0 ==> u < ab,
        a == 0 ==> u == 0,
    ensures
        (a - 2 * s * u) * (a - 2 * s * u) <= a * a,
        a != 0 && u >= 1 ==> (a - 2 * s * u) * (a - 2 * s * u) <= a * a - 4,
{
}

/// The spring magnitude along axis `c` for the two-node pair, capped by
/// the per-step displacement limit.
spec fn capped_attract_mag(nodes: Seq<i64>, c: int) -> int {
    let ma: int = attract_mag(nodes, 0, 1, c);
    if ma > 10_000 { 10_000int } else { ma }
}

/// Per-axis effect of one step on two nodes joined by one overlong edge:
/// repulsion truncates to zero at that range and the spring pulls both
/// nodes inward by the capped spring magnitude.
proof fn lemma_p4_axis(nodes: Seq<i64>, edges: Seq<u32>, c: int)
    requires
        nodes.len() == 6,
        edges.len() == 2,
        (edges[0] as int) == 0,
        (edges[1] as int) == 1,
        forall|k: int| 0 <= k < nodes.len() ==> -999_990_000 <= #[trigger] nodes[k] <= 999_990_000,
        pair_d2(nodes, 0, 1) >= 4_000_000,
        0 <= c < 3,
    ensures
        delta_c(step_spec(nodes, edges), 0, 1, c) == delta_c(nodes, 0, 1, c) - 2 * sgn_i(delta_c(nodes, 0, 1, c)) * capped_attract_mag(nodes, c),
        0 <= capped_attract_mag(nodes, c),
        delta_c(nodes, 0, 1, c) != 0 ==> capped_attract_mag(nodes, c) < abs_i(delta_c(nodes, 0, 1, c)),
        delta_c(nodes, 0, 1, c) == 0 ==> capped_attract_mag(nodes, c) == 0,
        pair_dist(nodes, 0, 1) >= 2000,
{
    let out = step_spec(nodes, edges);
    let a = delta_c(nodes, 0, 1, c);
    let s = sgn_i(a);
    let d2 = pair_d2(nodes, 0, 1);
    let d2c = clamped_d2(nodes, 0, 1);
    let d = pair_dist(nodes, 0, 1);
    assert(d2c == d2);
    lemma_dist_low(nodes, 0, 1);
    if d < 2000 {
        assert((d + 1) * (d + 1) <= 4_000_000) by (nonlinear_arith)
            requires 0 <= d, d + 1 <= 2000;
        assert(false);
    }
    crate::layout::lemma_delta_le_dist(nodes, 0, 1, c);
    let ab = abs_i(a);
    // repulsion truncates to zero at this distance
    lemma_repel_decomp(nodes, 0, 1, c);
    assert(ab * 1_000_000 < d2 * d) by (nonlinear_arith)
        requires 0 <= ab <= d, d2 >= 4_000_000, d >= 2000;
    lemma_basic_div(ab * (K_REPEL as int), d2c * d);
    assert(repel_mag(nodes, 0, 1, c) == 0);
    lemma_sign_times_mag(s, 0);
    assert(repel_term(nodes, 0, 1, c) == 0);
    assert(repel_term(nodes, 1, 0, c) == 0);
    // the spring magnitude and its bound
    let adiff = abs_i(d - (IDEAL_LEN as int));
    assert(adiff == d - 1000);
    let den = d * (ATTRACT_DIV as int);
    assert(den == 10 * d && den >= 20_000);
    let num = ab * adiff;
    let ma = attract_mag(nodes, 0, 1, c);
    assert(ma == num / den);
    lemma_div_is_ordered(0, num, den);
    lemma_div_multiples_vanish(0, den);
    assert(den * 0 == 0);
    assert(ma >= 0);
    if a != 0 {
        assert(ab >= 1);
        assert(num <= den * ab - den + (den - 1)) by (nonlinear_arith)
            requires
                num == ab * adiff,
                den == 10 * d,
                1 <= ab,
                0 <= adiff,
                adiff < den,
                d >= 2000;
        assert(den * ab - den + (den - 1) == den * (ab - 1) + (den - 1)) by (nonlinear_arith);
        lemma_div_is_ordered(num, den * (ab - 1) + (den - 1), den);
        lemma_div_multiples_vanish_fancy(ab - 1, den - 1, den);
        assert(ma <= ab - 1);
    } else {
        assert(ab == 0 && num == 0);
        lemma_basic_div(0, den);
        assert(ma == 0);
    }
    let u = capped_attract_mag(nodes, c);
    assert(0 <= u && u <= ma && (a != 0 ==> u < ab) && (a == 0 ==> u == 0));
    // the spring term on each node
    assert(sgn_i(d - (IDEAL_LEN as int)) == 1);
    assert(attract_term(nodes, 0, 1, c) == -s * 1 * ma);
    assert(-s * 1 * ma == -(s * ma)) by (nonlinear_arith);
    lemma_pair_symm(nodes, 0, 1);
    assert(delta_c(nodes, 1, 0, c) == -a);
    assert(abs_i(-a) == ab);
    assert(sgn_i(-a) == -s);
    assert(attract_mag(nodes, 1, 0, c) == ma);
    assert(attract_term(nodes, 1, 0, c) == -(-s) * 1 * ma);
    assert(-(-s) * 1 * ma == s * ma) by (nonlinear_arith);
    // total raw displacements: single repulsion plus the one edge
    assert(repel_sum(nodes, 0, c, 0) == 0);
    assert(repel_sum(nodes, 0, c, 1) == 0);
    assert(repel_sum(nodes, 0, c, 2) == repel_term(nodes, 0, 1, c));
    assert(repel_sum(nodes, 1, c, 0) == 0);
    assert(repel_sum(nodes, 1, c, 1) == repel_term(nodes, 1, 0, c));
    assert(repel_sum(nodes, 1, c, 2) == repel_term(nodes, 1, 0, c));
    assert(attract_sum(nodes, edges, 0, c, 0) == 0);
    assert(attract_sum(nodes, edges, 1, c, 0) == 0);
    assert(attract_sum(nodes, edges, 0, c, 1) == attract_term(nodes, 0, 1, c));
    assert(attract_sum(nodes, edges, 1, c, 1) == attract_term(nodes, 1, 0, c));
    assert(raw_disp(nodes, edges, 0, c) == -(s * ma));
    assert(raw_disp(nodes, edges, 1, c) == s * ma);
    // clamping the displacement caps the magnitude
    lemma_sign_times_mag(s, ma);
    lemma_sign_times_mag(s, u);
    assert(clamp_i(-(s * ma), 10_000) == -(s * u));
    assert(clamp_i(s * ma, 10_000) == s * u);
    // coordinates stay inside the working range
    assert(c / 3 == 0 && c % 3 == c);
    assert((3 + c) / 3 == 1 && (3 + c) % 3 == c);
    assert(coord(nodes, 0, c) == nodes[c]);
    assert(coord(nodes, 1, c) == nodes[3 + c]);
    assert(new_coord(nodes, edges, c) == coord(nodes, 0, c) - (s * u));
    assert(new_coord(nodes, edges, 3 + c) == coord(nodes, 1, c) + (s * u));
    assert(out[c] as int == new_coord(nodes, edges, c));
    assert(out[3 + c] as int == new_coord(nodes, edges, 3 + c));
    assert(delta_c(out, 0, 1, c) == out[c] - out[3 + c]);
    assert(2 * s * u == 2 * (s * u)) by (nonlinear_arith);
}

/// On the dominant axis of an overlong edge, the capped spring magnitude
/// is at least one unit, so that axis strictly contracts.
proof fn lemma_p4_strict(nodes: Seq<i64>, c: int, amax: int, d2: int, d: int)
    requires
        0 <= c < 3,
        amax == abs_i(delta_c(nodes, 0, 1, c)),
        d2 == pair_d2(nodes, 0, 1),
        d == pair_dist(nodes, 0, 1),
        d2 >= 4_000_000,
        d >= 2000,
        3 * amax * amax >= d2,
    ensures
        capped_attract_mag(nodes, c) >= 1,
        delta_c(nodes, 0, 1, c) != 0,
{
    assert(clamped_d2(nodes, 0, 1) == d2);
    lemma_dist_low(nodes, 0, 1);
    assert(d * d <= d2);
    assert(2 * amax > d && amax >= 1) by (nonlinear_arith)
        requires
            3 * amax * amax >= d2,
            d * d <= d2,
            d >= 2000,
            amax >= 0;
    let den = d * (ATTRACT_DIV as int);
    let adiff = abs_i(d - (IDEAL_LEN as int));
    assert(adiff == d - 1000);
    assert(amax * adiff >= den) by (nonlinear_arith)
        requires
            adiff == d - 1000,
            den == d * 10,
            2 * amax > d,
            d >= 2000;
    lemma_div_is_ordered(den, amax * adiff, den);
    lemma_div_multiples_vanish(1, den);
    assert(den * 1 == den);
    assert(attract_mag(nodes, 0, 1, c) >= 1);
}

/// An edge much longer than the rest length pulls its two endpoints
/// strictly closer in one step: at that range the spring force dominates
/// and the integer repulsion truncates to zero. (When the edge is shorter
/// than the rest length, spring and repulsion instead push the nodes
/// apart.) The nodes must sit away from the coordinate boundary.
pub proof fn lemma_overlong_edge_contracts(nodes: Seq<i64>, edges: Seq<u32>)
    requires
        nodes.len() == 6,
        edges.len() == 2,
        (edges[0] as int) == 0,
        (edges[1] as int) == 1,
        forall|k: int| 0 <= k < nodes.len() ==> -999_990_000 <= #[trigger] nodes[k] <= 999_990_000,
        pair_d2(nodes, 0, 1) >= 4_000_000,
    ensures
        pair_d2(step_spec(nodes, edges), 0, 1) < pair_d2(nodes, 0, 1),
{
    let out = step_spec(nodes, edges);
    let a0 = delta_c(nodes, 0, 1, 0);
    let a1 = delta_c(nodes, 0, 1, 1);
    let a2 = delta_c(nodes, 0, 1, 2);
    let s0 = sgn_i(a0);
    let s1 = sgn_i(a1);
    let s2 = sgn_i(a2);
    let u0 = capped_attract_mag(nodes, 0);
    let u1 = capped_attract_mag(nodes, 1);
    let u2 = capped_attract_mag(nodes, 2);
    lemma_p4_axis(nodes, edges, 0);
    lemma_p4_axis(nodes, edges, 1);
    lemma_p4_axis(nodes, edges, 2);
    let n0 = delta_c(out, 0, 1, 0);
    let n1 = delta_c(out, 0, 1, 1);
    let n2 = delta_c(out, 0, 1, 2);
    lemma_axis_sq_shrink(a0, s0, u0, abs_i(a0));
    lemma_axis_sq_shrink(a1, s1, u1, abs_i(a1));
    lemma_axis_sq_shrink(a2, s2, u2, abs_i(a2));
    let d2 = pair_d2(nodes, 0, 1);
    let d = pair_dist(nodes, 0, 1);
    lemma_dist_low(nodes, 0, 1);
    assert(d2 == a0 * a0 + a1 * a1 + a2 * a2);
    let ab0 = abs_i(a0);
    let ab1 = abs_i(a1);
    let ab2 = abs_i(a2);
    // on the dominant axis the spring moves the nodes by at least one unit
    if ab0 >= ab1 && ab0 >= ab2 {
        assert(3 * ab0 * ab0 >= d2) by (nonlinear_arith)
            requires
                d2 == a0 * a0 + a1 * a1 + a2 * a2,
                ab0 == (if a0 < 0 { -a0 } else { a0 }),
                ab1 == (if a1 < 0 { -a1 } else { a1 }),
                ab2 == (if a2 < 0 { -a2 } else { a2 }),
                ab0 >= ab1,
                ab0 >= ab2;
        lemma_p4_strict(nodes, 0, ab0, d2, d);
        assert(n0 * n0 <= a0 * a0 - 4);
    } else if ab1 >= ab2 {
        assert(3 * ab1 * ab1 >= d2) by (nonlinear_arith)
            requires
                d2 == a0 * a0 + a1 * a1 + a2 * a2,
                ab0 == (if a0 < 0 { -a0 } else { a0 }),
                ab1 == (if a1 < 0 { -a1 } else { a1 }),
                ab2 == (if a2 < 0 { -a2 } else { a2 }),
                ab1 >= ab0,
                ab1 >= ab2;
        lemma_p4_strict(nodes, 1, ab1, d2, d);
        assert(n1 * n1 <= a1 * a1 - 4);
    } else {
        assert(3 * ab2 * ab2 >= d2) by (nonlinear_arith)
            requires
                d2 == a0 * a0 + a1 * a1 + a2 * a2,
                ab0 == (if a0 < 0 { -a0 } else { a0 }),
                ab1 == (if a1 < 0 { -a1 } else { a1 }),
                ab2 == (if a2 < 0 { -a2 } else { a2 }),
                ab2 >= ab0,
                ab2 >= ab1;
        lemma_p4_strict(nodes, 2, ab2, d2, d);
        assert(n2 * n2 <= a2 * a2 - 4);
    }
    assert(pair_d2(out, 0, 1) == n0 * n0 + n1 * n1 + n2 * n2);
    assert(pair_d2(out, 0, 1) < d2);
}


/// Once a pass moves nothing, further passes move nothing.
proof fn lemma_fixpoint_passes(edges: Seq<u32>, comm: Seq<u32>, k: nat)
    requires
        pass_from(edges, comm, 0) == comm,
    ensures
        passes(edges, comm, k) == comm,
    decreases k,
{
    if k > 0 {
        lemma_fixpoint_passes(edges, comm, (k - 1) as nat);
    }
}

/// The smallest clique: two nodes joined by one edge end up in one
/// community.
pub proof fn lemma_joined_pair_one_community()
    ensures
        detect_spec(2, seq![0u32, 1u32]) == seq![1u32, 1u32],
{
    reveal_with_fuel(deg_upto, 3);
    reveal_with_fuel(k_in_upto, 2);
    reveal_with_fuel(sigma_upto, 3);
    reveal_with_fuel(best_upto, 3);
    reveal_with_fuel(pass_from, 4);
    let e = seq![0u32, 1u32];
    let c0 = ident_assignment(2);
    let c1 = seq![1u32, 1u32];
    assert(c0 =~= seq![0u32, 1u32]);
    // degrees: one endpoint each
    assert(degree(e, 0) == 1);
    assert(degree(e, 1) == 1);
    // first pass, node 0: the neighbor's community wins over staying alone
    assert(k_in_upto(e, c0, 0, 0, 1) == 0);
    assert(k_in_upto(e, c0, 0, 1, 1) == 1);
    assert(sigma_upto(e, c0, 0, 1, 2) == 1);
    assert(sigma_upto(e, c0, 0, 0, 2) == 0);
    assert(score(e, c0, 0, 1) == 1);
    assert(score(e, c0, 0, 0) == 0);
    assert(best_upto(e, c0, 0, 0) == -1);
    assert(best_upto(e, c0, 0, 1) == -1);
    assert(best_upto(e, c0, 0, 2) == 1);
    assert(move_of(e, c0, 0) =~= c1);
    assert(move_of(e, c0, 0) == c1);
    // node 1 then has nothing better than its own community
    assert(k_in_upto(e, c1, 1, 0, 1) == 0);
    assert(k_in_upto(e, c1, 1, 1, 1) == 1);
    assert(sigma_upto(e, c1, 1, 1, 2) == 1);
    assert(score(e, c1, 1, 1) == 1);
    assert(best_upto(e, c1, 1, 0) == -1);
    assert(best_upto(e, c1, 1, 1) == -1);
    assert(best_upto(e, c1, 1, 2) == 1);
    assert(move_of(e, c1, 1) == c1);
    assert(pass_from(e, c1, 2) == c1);
    assert(pass_from(e, c0, 0) == c1);
    // the merged assignment is a fixpoint
    assert(k_in_upto(e, c1, 0, 1, 1) == 1);
    assert(k_in_upto(e, c1, 0, 0, 1) == 0);
    assert(sigma_upto(e, c1, 0, 1, 2) == 1);
    assert(score(e, c1, 0, 1) == 1);
    assert(best_upto(e, c1, 0, 0) == -1);
    assert(best_upto(e, c1, 0, 1) == -1);
    assert(best_upto(e, c1, 0, 2) == 1);
    assert(move_of(e, c1, 0) == c1);
    assert(pass_from(e, c1, 0) == c1);
    lemma_fixpoint_passes(e, c1, (MAX_PASSES - 1) as nat);
    assert(passes(e, c0, MAX_PASSES as nat) == c1);
}


/// A triangle clique: three mutually connected nodes end up in one
/// community.
pub proof fn lemma_triangle_one_community()
    ensures
        detect_spec(3, seq![0u32, 1u32, 0u32, 2u32, 1u32, 2u32]) == seq![1u32, 1u32, 1u32],
{
    reveal_with_fuel(deg_upto, 8);
    reveal_with_fuel(k_in_upto, 5);
    reveal_with_fuel(sigma_upto, 5);
    reveal_with_fuel(best_upto, 5);
    reveal_with_fuel(pass_from, 5);
    let e = seq![0u32, 1u32, 0u32, 2u32, 1u32, 2u32];
    let c0 = ident_assignment(3);
    assert(c0 =~= seq![0u32, 1u32, 2u32]);
    assert(degree(e, 0) == 2);
    assert(degree(e, 1) == 2);
    assert(degree(e, 2) == 2);
    // first pass, node 0: both neighbor communities gain equally; the
    // lower id wins over staying alone
    assert(k_in(e, c0, 0, 0) == 0);
    assert(k_in(e, c0, 0, 1) == 1);
    assert(k_in(e, c0, 0, 2) == 1);
    assert(sigma_excl(e, c0, 0, 0) == 0);
    assert(score(e, c0, 0, 0) == 0);
    assert(sigma_excl(e, c0, 0, 1) == 2);
    assert(score(e, c0, 0, 1) == 2);
    assert(sigma_excl(e, c0, 0, 2) == 2);
    assert(score(e, c0, 0, 2) == 2);
    assert(best_upto(e, c0, 0, 0) == -1);
    assert(best_upto(e, c0, 0, 1) == -1);
    assert(best_upto(e, c0, 0, 2) == 1);
    assert(best_upto(e, c0, 0, 3) == 1);
    let c1 = seq![1u32, 1u32, 2u32];
    assert(move_of(e, c0, 0) =~= c1);
    assert(move_of(e, c0, 0) == c1);
    // node 1: moving to the other singleton gains no more than staying
    assert(k_in(e, c1, 1, 0) == 0);
    assert(k_in(e, c1, 1, 1) == 1);
    assert(k_in(e, c1, 1, 2) == 1);
    assert(sigma_excl(e, c1, 1, 1) == 2);
    assert(score(e, c1, 1, 1) == 2);
    assert(sigma_excl(e, c1, 1, 2) == 2);
    assert(score(e, c1, 1, 2) == 2);
    assert(best_upto(e, c1, 1, 0) == -1);
    assert(best_upto(e, c1, 1, 1) == -1);
    assert(best_upto(e, c1, 1, 2) == 1);
    assert(best_upto(e, c1, 1, 3) == 1);
    assert(move_of(e, c1, 1) == c1);
    // node 2: both its edges lead into the grown community
    assert(k_in(e, c1, 2, 0) == 0);
    assert(k_in(e, c1, 2, 1) == 2);
    assert(k_in(e, c1, 2, 2) == 0);
    assert(sigma_excl(e, c1, 2, 1) == 4);
    assert(score(e, c1, 2, 1) == 4);
    assert(sigma_excl(e, c1, 2, 2) == 0);
    assert(score(e, c1, 2, 2) == 0);
    assert(best_upto(e, c1, 2, 0) == -1);
    assert(best_upto(e, c1, 2, 1) == -1);
    assert(best_upto(e, c1, 2, 2) == 1);
    assert(best_upto(e, c1, 2, 3) == 1);
    let c2 = seq![1u32, 1u32, 1u32];
    assert(move_of(e, c1, 2) =~= c2);
    assert(move_of(e, c1, 2) == c2);
    assert(pass_from(e, c2, 3) == c2);
    assert(pass_from(e, c1, 2) == c2);
    assert(pass_from(e, c1, 1) == c2);
    assert(pass_from(e, c0, 0) == c2);
    // the merged assignment is a fixpoint
    assert(k_in(e, c2, 0, 0) == 0);
    assert(k_in(e, c2, 0, 1) == 2);
    assert(k_in(e, c2, 0, 2) == 0);
    assert(sigma_excl(e, c2, 0, 1) == 4);
    assert(score(e, c2, 0, 1) == 4);
    assert(best_upto(e, c2, 0, 0) == -1);
    assert(best_upto(e, c2, 0, 1) == -1);
    assert(best_upto(e, c2, 0, 2) == 1);
    assert(best_upto(e, c2, 0, 3) == 1);
    assert(move_of(e, c2, 0) == c2);
    assert(k_in(e, c2, 1, 0) == 0);
    assert(k_in(e, c2, 1, 1) == 2);
    assert(k_in(e, c2, 1, 2) == 0);
    assert(sigma_excl(e, c2, 1, 1) == 4);
    assert(score(e, c2, 1, 1) == 4);
    assert(best_upto(e, c2, 1, 0) == -1);
    assert(best_upto(e, c2, 1, 1) == -1);
    assert(best_upto(e, c2, 1, 2) == 1);
    assert(best_upto(e, c2, 1, 3) == 1);
    assert(move_of(e, c2, 1) == c2);
    assert(k_in(e, c2, 2, 0) == 0);
    assert(k_in(e, c2, 2, 1) == 2);
    assert(k_in(e, c2, 2, 2) == 0);
    assert(sigma_excl(e, c2, 2, 1) == 4);
    assert(score(e, c2, 2, 1) == 4);
    assert(best_upto(e, c2, 2, 0) == -1);
    assert(best_upto(e, c2, 2, 1) == -1);
    assert(best_upto(e, c2, 2, 2) == 1);
    assert(best_upto(e, c2, 2, 3) == 1);
    assert(move_of(e, c2, 2) == c2);
    assert(pass_from(e, c2, 0) == c2);
    assert(pass_from(e, c2, 2) == c2);
    assert(pass_from(e, c2, 1) == c2);
    lemma_fixpoint_passes(e, c2, (MAX_PASSES - 1) as nat);
    assert(passes(e, c0, MAX_PASSES as nat) == c2);
}

} // verus!
