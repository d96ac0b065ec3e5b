//! Community detection: single-level greedy modularity optimization.
//!
//! Each node starts in its own singleton community. In ascending node-id
//! order, a node is moved into the neighboring community with the
//! strictly greatest positive modularity gain (ties broken by lowest
//! community id). A fixed number of passes is run; a pass over an
//! already-stable assignment leaves it unchanged, so extra passes are
//! harmless. This is the single-level form: communities are not
//! aggregated into super-nodes.
//!
//! Modularity gains are compared exactly in integers: with `m2` twice the
//! edge count (the number of edge-array entries), the gain of placing
//! node `i` into community `C` is proportional to
//! `m2 * k_in(i, C) - sigma(C) * deg(i)`, where `k_in` counts edges from
//! `i` into `C`, `sigma` sums the degrees of the other members of `C`,
//! and `deg` counts edge endpoints at a node (a self-loop counts twice).

use vstd::prelude::*;

use crate::graph::GraphProcessor;

verus! {

/// Number of greedy passes over the nodes.
pub const MAX_PASSES: usize = 8;

/// The initial assignment: every node its own singleton community.
pub open spec fn ident_assignment(n: int) -> Seq<u32> {
    Seq::new(n as nat, |i: int| i as u32)
}

/// Number of endpoints equal to `v` among the first `upto` edge entries.
pub open spec fn deg_upto(edges: Seq<u32>, v: int, upto: int) -> int
    decreases upto,
{
    if upto <= 0 {
        0
    } else {
        deg_upto(edges, v, upto - 1) + if edges[upto - 1] as int == v { 1int } else { 0int }
    }
}

/// Degree of node `v`: endpoint count, so a self-loop counts twice.
pub open spec fn degree(edges: Seq<u32>, v: int) -> int {
    deg_upto(edges, v, edges.len() as int)
}

/// Edges between node `i` and members of community `cc` other than `i`,
/// among the first `upto` edges.
pub open spec fn k_in_upto(edges: Seq<u32>, comm: Seq<u32>, i: int, cc: int, upto: int) -> int
    decreases upto,
{
    if upto <= 0 {
        0
    } else {
        let t: int = upto - 1;
        let a: int = edges[2 * t] as int;
        let b: int = edges[2 * t + 1] as int;
        k_in_upto(edges, comm, i, cc, t) + (
        if a == i && b != i && comm[b] as int == cc { 1int } else { 0int }) + (
        if b == i && a != i && comm[a] as int == cc { 1int } else { 0int })
    }
}

/// Edges from node `i` into community `cc` (self-loops excluded).
pub open spec fn k_in(edges: Seq<u32>, comm: Seq<u32>, i: int, cc: int) -> int {
    k_in_upto(edges, comm, i, cc, edges.len() as int / 2)
}

/// Sum of the degrees of the members of community `cc` other than `i`,
/// among nodes `v < upto`.
pub open spec fn sigma_upto(edges: Seq<u32>, comm: Seq<u32>, i: int, cc: int, upto: int) -> int
    decreases upto,
{
    if upto <= 0 {
        0
    } else {
        sigma_upto(edges, comm, i, cc, upto - 1) + if upto - 1 != i && comm[upto - 1] as int
            == cc { degree(edges, upto - 1) } else { 0int }
    }
}

/// Total degree of community `cc`, with node `i` removed.
pub open spec fn sigma_excl(edges: Seq<u32>, comm: Seq<u32>, i: int, cc: int) -> int {
    sigma_upto(edges, comm, i, cc, comm.len() as int)
}

/// Modularity gain (up to the positive factor `2 m^2`) of placing node
/// `i` into community `cc`, after removing `i` from its own community.
pub open spec fn score(edges: Seq<u32>, comm: Seq<u32>, i: int, cc: int) -> int {
    (edges.len() as int) * k_in(edges, comm, i, cc) - sigma_excl(edges, comm, i, cc) * degree(
        edges,
        i,
    )
}

/// Best candidate community for node `i` among communities `< upto`: the
/// lowest id among those with maximal score, considering only communities
/// adjacent to `i`; `-1` when there is no candidate.
pub open spec fn best_upto(edges: Seq<u32>, comm: Seq<u32>, i: int, upto: int) -> int
    decreases upto,
{
    if upto <= 0 {
        -1
    } else {
        let c: int = upto - 1;
        let prev: int = best_upto(edges, comm, i, c);
        if k_in(edges, comm, i, c) > 0 {
            if prev == -1 {
                c
            } else if score(edges, comm, i, c) > score(edges, comm, i, prev) {
                c
            } else {
                prev
            }
        } else {
            prev
        }
    }
}

/// The greedy move of node `i`: into the best adjacent community when its
/// gain strictly beats staying put, otherwise no change.
pub open spec fn move_of(edges: Seq<u32>, comm: Seq<u32>, i: int) -> Seq<u32> {
    let b: int = best_upto(edges, comm, i, comm.len() as int);
    if b >= 0 && score(edges, comm, i, b) > score(edges, comm, i, comm[i] as int) {
        comm.update(i, b as u32)
    } else {
        comm
    }
}

/// One pass: greedy moves of nodes `i, i+1, ...` in ascending order, each
/// seeing the assignment left by the previous.
pub open spec fn pass_from(edges: Seq<u32>, comm: Seq<u32>, i: int) -> Seq<u32>
    decreases comm.len() - i,
{
    if i < 0 || i >= comm.len() {
        comm
    } else {
        pass_from(edges, move_of(edges, comm, i), i + 1)
    }
}

/// `k` full passes.
pub open spec fn passes(edges: Seq<u32>, comm: Seq<u32>, k: nat) -> Seq<u32>
    decreases k,
{
    if k == 0 {
        comm
    } else {
        passes(edges, pass_from(edges, comm, 0), (k - 1) as nat)
    }
}

/// The full community-detection result for `n` nodes.
pub open spec fn detect_spec(n: int, edges: Seq<u32>) -> Seq<u32> {
    passes(edges, ident_assignment(n), MAX_PASSES as nat)
}

/// Endpoint counts of all nodes.
fn compute_degrees(edges: &Vec<u32>, n: usize) -> (r: Vec<u64>)
    requires
        edges@.len() <= 0xFFFF_FFFE,
        forall|k: int| 0 <= k < edges@.len() ==> (edges@[k] as int) < n as int,
    ensures
        r@.len() == n as int,
        forall|v: int| 0 <= v < n as int ==> #[trigger] r@[v] as int == degree(edges@, v),
        forall|v: int| 0 <= v < n as int ==> #[trigger] r@[v] as int <= edges@.len(),
{
    let mut r: Vec<u64> = Vec::new();
    let mut v: usize = 0;
    while v < n
        invariant
            v <= n,
            r@.len() == v as int,
            forall|q: int| 0 <= q < v as int ==> r@[q] == 0,
        decreases n - v,
    {
        r.push(0);
        v = v + 1;
    }
    let mut k: usize = 0;
    while k < edges.len()
        invariant
            k <= edges@.len(),
            edges@.len() <= 0xFFFF_FFFE,
            r@.len() == n as int,
            forall|q: int| 0 <= q < edges@.len() ==> (edges@[q] as int) < n as int,
            forall|q: int| 0 <= q < n as int ==> #[trigger] r@[q] as int == deg_upto(
                edges@,
                q,
                k as int,
            ),
            forall|q: int| 0 <= q < n as int ==> #[trigger] r@[q] as int <= k as int,
        decreases edges@.len() - k,
    {
        let v: usize = edges[k] as usize;
        let old_count: u64 = r[v];
        r.set(v, old_count + 1);
        k = k + 1;
    }
    r
}

/// Edges between node `i` and members of community `cc` other than `i`.
fn k_in_exec(edges: &Vec<u32>, comm: &Vec<u32>, i: usize, cc: usize) -> (r: u64)
    requires
        edges@.len() % 2 == 0,
        edges@.len() <= 0xFFFF_FFFE,
        forall|k: int| 0 <= k < edges@.len() ==> (edges@[k] as int) < comm@.len(),
    ensures
        r as int == k_in(edges@, comm@, i as int, cc as int),
{
    let m: usize = edges.len() / 2;
    let mut count: u64 = 0;
    let mut t: usize = 0;
    while t < m
        invariant
            t <= m,
            m as int == edges@.len() as int / 2,
            edges@.len() % 2 == 0,
            edges@.len() <= 0xFFFF_FFFE,
            forall|k: int| 0 <= k < edges@.len() ==> (edges@[k] as int) < comm@.len(),
            count as int == k_in_upto(edges@, comm@, i as int, cc as int, t as int),
            count as int <= 2 * t as int,
        decreases m - t,
    {
        proof {
            crate::layout::lemma_pair_index(edges@.len() as int, t as int);
        }
        let a: usize = edges[2 * t] as usize;
        let b: usize = edges[2 * t + 1] as usize;
        if a == i && b != i && comm[b] as usize == cc {
            count = count + 1;
        }
        if b == i && a != i && comm[a] as usize == cc {
            count = count + 1;
        }
        t = t + 1;
    }
    count
}

/// Total degree of community `cc` with node `i` removed.
fn sigma_exec(edges: &Vec<u32>, comm: &Vec<u32>, degs: &Vec<u64>, i: usize, cc: usize) -> (r: u128)
    requires
        degs@.len() == comm@.len(),
        forall|v: int| 0 <= v < degs@.len() ==> #[trigger] degs@[v] as int == degree(edges@, v),
        forall|v: int| 0 <= v < degs@.len() ==> #[trigger] degs@[v] as int <= 0xFFFF_FFFE,
    ensures
        r as int == sigma_excl(edges@, comm@, i as int, cc as int),
        r as int <= comm@.len() * 0xFFFF_FFFE,
{
    let n: usize = comm.len();
    let mut acc: u128 = 0;
    let mut v: usize = 0;
    while v < n
        invariant
            v <= n,
            n == comm@.len(),
            degs@.len() == comm@.len(),
            forall|q: int| 0 <= q < degs@.len() ==> #[trigger] degs@[q] as int == degree(edges@, q),
            forall|q: int| 0 <= q < degs@.len() ==> #[trigger] degs@[q] as int <= 0xFFFF_FFFE,
            acc as int == sigma_upto(edges@, comm@, i as int, cc as int, v as int),
            acc as int <= (v as int) * 0xFFFF_FFFE,
        decreases n - v,
    {
        if v != i && comm[v] as usize == cc {
            acc = acc + degs[v] as u128;
        }
        v = v + 1;
    }
    acc
}

/// Modularity score (scaled gain) of placing node `i` into community
/// `cc`, with `i` removed from its own community.
fn score_exec(edges: &Vec<u32>, comm: &Vec<u32>, degs: &Vec<u64>, i: usize, cc: usize) -> (r: i128)
    requires
        edges@.len() % 2 == 0,
        edges@.len() <= 0xFFFF_FFFE,
        comm@.len() <= 0xFFFF_FFFF,
        forall|k: int| 0 <= k < edges@.len() ==> (edges@[k] as int) < comm@.len(),
        degs@.len() == comm@.len(),
        i < comm@.len(),
        forall|v: int| 0 <= v < degs@.len() ==> #[trigger] degs@[v] as int == degree(edges@, v),
        forall|v: int| 0 <= v < degs@.len() ==> #[trigger] degs@[v] as int <= 0xFFFF_FFFE,
    ensures
        r as int == score(edges@, comm@, i as int, cc as int),
{
    let m2: u64 = edges.len() as u64;
    let kin: u64 = k_in_exec(edges, comm, i, cc);
    let sig: u128 = sigma_exec(edges, comm, degs, i, cc);
    let ki: u64 = degs[i];
    proof {
        lemma_k_in_bound(edges@, comm@, i as int, cc as int, edges@.len() as int / 2);
        assert((m2 as int) * (kin as int) <= 100_000_000_000_000_000_000) by (nonlinear_arith)
            requires
                0 <= m2 as int <= 0xFFFF_FFFE,
                0 <= kin as int <= 0xFFFF_FFFE;
        assert((sig as int) * (ki as int) <= 100_000_000_000_000_000_000_000_000_000)
            by (nonlinear_arith)
            requires
                0 <= sig as int <= 0xFFFF_FFFF * 0xFFFF_FFFE,
                0 <= ki as int <= 0xFFFF_FFFE;
    }
    let pos: i128 = (m2 as i128) * (kin as i128);
    let neg: i128 = (sig as i128) * (ki as i128);
    pos - neg
}

/// `k_in` counts at most two endpoints per edge.
proof fn lemma_k_in_bound(edges: Seq<u32>, comm: Seq<u32>, i: int, cc: int, upto: int)
    requires
        upto >= 0,
    ensures
        k_in_upto(edges, comm, i, cc, upto) <= 2 * upto,
        k_in_upto(edges, comm, i, cc, upto) >= 0,
    decreases upto,
{
    if upto > 0 {
        lemma_k_in_bound(edges, comm, i, cc, upto - 1);
    }
}

impl GraphProcessor {
    /// Runs the greedy single-level modularity optimization and returns
    /// one community id per node, in node-id order. Read-only over the
    /// stored graph; the result is a pure function of the topology.
    pub fn detect_communities(&self) -> (r: Vec<u32>)
        requires
            self.wf(),
        ensures
            r@ == detect_spec(self.spec_node_count(), self.edges_view()),
            r@.len() == self.spec_node_count(),
    {
        let n: usize = self.nodes.len() / 3;
        let degs: Vec<u64> = compute_degrees(&self.edges, n);
        let mut comm: Vec<u32> = Vec::new();
        let mut v: usize = 0;
        while v < n
            invariant
                v <= n,
                n as int <= 0xFFFF_FFFF,
                comm@.len() == v as int,
                forall|q: int| 0 <= q < v as int ==> comm@[q] == q as u32,
            decreases n - v,
        {
            comm.push(v as u32);
            v = v + 1;
        }
        proof {
            assert(comm@ =~= ident_assignment(n as int));
        }
        let ghost edg = self.edges@;
        let mut p: usize = 0;
        while p < MAX_PASSES
            invariant
                p <= MAX_PASSES,
                comm@.len() == n as int,
                n as int == self.spec_node_count(),
                n as int <= 0xFFFF_FFFF,
                edg == self.edges@,
                edg.len() % 2 == 0,
                edg.len() <= 0xFFFF_FFFE,
                forall|k: int| 0 <= k < edg.len() ==> (edg[k] as int) < n as int,
                degs@.len() == n as int,
                forall|q: int| 0 <= q < degs@.len() ==> #[trigger] degs@[q] as int == degree(
                    edg,
                    q,
                ),
                forall|q: int| 0 <= q < degs@.len() ==> #[trigger] degs@[q] as int <= 0xFFFF_FFFE,
                passes(edg, comm@, (MAX_PASSES - p) as nat) == detect_spec(
                    self.spec_node_count(),
                    edg,
                ),
            decreases MAX_PASSES - p,
        {
            let ghost comm0 = comm@;
            let mut i: usize = 0;
            while i < n
                invariant
                    i <= n,
                    comm@.len() == n as int,
                    n as int <= 0xFFFF_FFFF,
                    edg == self.edges@,
                    edg.len() % 2 == 0,
                    edg.len() <= 0xFFFF_FFFE,
                    forall|k: int| 0 <= k < edg.len() ==> (edg[k] as int) < n as int,
                    degs@.len() == n as int,
                    forall|q: int| 0 <= q < degs@.len() ==> #[trigger] degs@[q] as int == degree(
                        edg,
                        q,
                    ),
                    forall|q: int| 0 <= q < degs@.len() ==> #[trigger] degs@[q] as int
                        <= 0xFFFF_FFFE,
                    pass_from(edg, comm@, i as int) == pass_from(edg, comm0, 0),
                decreases n - i,
            {
                let mut best_c: i64 = -1;
                let mut best_score: i128 = 0;
                let mut cc: usize = 0;
                while cc < n
                    invariant
                        cc <= n,
                        comm@.len() == n as int,
                        n as int <= 0xFFFF_FFFF,
                        edg == self.edges@,
                        edg.len() % 2 == 0,
                        edg.len() <= 0xFFFF_FFFE,
                        forall|k: int| 0 <= k < edg.len() ==> (edg[k] as int) < n as int,
                        degs@.len() == n as int,
                        i < n,
                        forall|q: int| 0 <= q < degs@.len() ==> #[trigger] degs@[q] as int
                            == degree(edg, q),
                        forall|q: int| 0 <= q < degs@.len() ==> #[trigger] degs@[q] as int
                            <= 0xFFFF_FFFE,
                        best_c as int == best_upto(edg, comm@, i as int, cc as int),
                        best_c == -1 || ((0 <= best_c) && ((best_c as int) < (cc as int)) && ((best_score as int)
                            == score(edg, comm@, i as int, best_c as int))),
                    decreases n - cc,
                {
                    let kin: u64 = k_in_exec(&self.edges, &comm, i, cc);
                    if kin > 0 {
                        let sc: i128 = score_exec(&self.edges, &comm, &degs, i, cc);
                        if best_c == -1 || sc > best_score {
                            best_c = cc as i64;
                            best_score = sc;
                        }
                    }
                    cc = cc + 1;
                }
                let own: usize = comm[i] as usize;
                let own_score: i128 = score_exec(&self.edges, &comm, &degs, i, own);
                let ghost before = comm@;
                if best_c >= 0 && best_score > own_score {
                    comm.set(i, best_c as u32);
                    proof {
                        assert(comm@ =~= move_of(edg, before, i as int));
                    }
                } else {
                    proof {
                        assert(comm@ =~= move_of(edg, before, i as int));
                    }
                }
                i = i + 1;
            }
            p = p + 1;
        }
        comm
    }
}

} // verus!
