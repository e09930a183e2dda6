//! The mathematical model of the engine: a purely functional description of
//! one work unit (`step`) and of a whole run (`run`). The executable engine
//! in `engine` is proved to follow this model exactly, so every question
//! about the engine's behaviour can be settled at the level of these
//! specification functions.

use vstd::prelude::*;
use crate::subsets::submask_list;

verus! {

/// Sentinel cost standing for "not reachable"; strictly larger than any
/// achievable tree cost, and small enough that a sum of two table entries
/// never overflows `usize`.
pub const INFINITY: usize = usize::MAX / 2;

/// Hard cap on the number of terminals: the table has `2^k` columns.
pub const MAX_TERMINALS: usize = 30;

/// Ceiling on the projected table size `n * 2^k`.
pub const MAX_TABLE_CELLS: usize = 40_000_000;

/// Predecessor record for one dynamic-programming cell `(vertex, mask)`.
#[derive(Clone, Copy, Debug)]
pub enum PreEntry {
    /// The cell was never reached; its cost is `INFINITY`.
    Unreached,
    /// The cell is a terminal's own singleton state with cost zero.
    Seed,
    /// The cell's cost was formed by merging the costs of `submask` and of
    /// its complement within the same vertex.
    Merge(usize),
    /// The cell's cost was propagated from a neighbouring vertex along a
    /// unit-weight edge.
    Relax(usize),
}

/// The engine's progress marker: which work unit runs next.
#[derive(Clone, Copy, Debug)]
pub enum Phase {
    /// Allocate the cost and predecessor tables.
    Allocate,
    /// Seed each terminal's singleton state with cost zero.
    Seed,
    /// Process subset masks one per work unit, starting at `loop_index`.
    MainLoop { loop_index: usize },
    /// Extract the optimal cost and reconstruct the edge set.
    Finalize,
}

/// Ghost image of an engine state: the problem instance, both tables as
/// sequences, and the progress marker.
#[verifier::ext_equal]
pub struct M {
    pub n: usize,
    pub edges: Seq<(usize, usize)>,
    pub terms: Seq<usize>,
    pub dp: Seq<Seq<usize>>,
    pub pre: Seq<Seq<PreEntry>>,
    pub phase: Phase,
}

/// Ghost image of a work unit's outcome.
pub enum StepRes {
    Done(usize, Seq<(usize, usize)>),
    Failed(crate::error::ErrorSpec),
    Yielding,
}

/// `2^k` as a mathematical number.
pub open spec fn two_pow(k: nat) -> nat
    decreases k,
{
    if k == 0 {
        1
    } else {
        2 * two_pow((k - 1) as nat)
    }
}

pub proof fn lemma_two_pow_pos(k: nat)
    ensures
        two_pow(k) >= 1,
    decreases k,
{
    if k > 0 {
        lemma_two_pow_pos((k - 1) as nat);
    }
}

pub proof fn lemma_two_pow_mono(a: nat, b: nat)
    requires
        a <= b,
    ensures
        two_pow(a) <= two_pow(b),
    decreases b,
{
    if a < b {
        lemma_two_pow_mono(a, (b - 1) as nat);
    }
}

pub proof fn lemma_two_pow_strict_mono(a: nat, b: nat)
    requires
        a < b,
    ensures
        two_pow(a) < two_pow(b),
{
    lemma_two_pow_pos(a);
    lemma_two_pow_mono(a + 1, b);
}

pub proof fn lemma_two_pow_29()
    ensures
        two_pow(29) == 0x2000_0000,
{
    reveal_with_fuel(two_pow, 31);
}

/// Every edge endpoint lies inside `0..n`.
pub open spec fn edges_valid(n: usize, edges: Seq<(usize, usize)>) -> bool {
    forall|j: int| 0 <= j < edges.len() ==> (#[trigger] edges[j]).0 < n && edges[j].1 < n
}

/// Every terminal index lies inside `0..n`.
pub open spec fn terms_valid(n: usize, terms: Seq<usize>) -> bool {
    forall|j: int| 0 <= j < terms.len() ==> #[trigger] terms[j] < n
}

pub open spec fn input_valid(n: usize, edges: Seq<(usize, usize)>, terms: Seq<usize>) -> bool {
    edges_valid(n, edges) && terms_valid(n, terms)
}

/// The tractability bound: too many terminals, or a projected table size
/// `n * 2^k` at or above the configured ceiling.
pub open spec fn too_large(n: usize, k: nat) -> bool {
    k >= MAX_TERMINALS || n * two_pow(k) >= MAX_TABLE_CELLS
}

/// An `n` by `w` grid filled with one value.
pub open spec fn grid_of<T>(n: int, w: int, x: T) -> Seq<Seq<T>> {
    Seq::new(n as nat, |i: int| Seq::new(w as nat, |j: int| x))
}

/// Update one cell of a grid.
pub open spec fn upd2<T>(g: Seq<Seq<T>>, i: int, j: int, x: T) -> Seq<Seq<T>> {
    g.update(i, g[i].update(j, x))
}

/// The sequence-of-sequences image of a two-dimensional table.
pub open spec fn grid_view<T>(v: Vec<Vec<T>>) -> Seq<Seq<T>> {
    v@.map_values(|r: Vec<T>| r@)
}

/// Local consistency of one table cell: the cost is bounded by the sentinel,
/// and the predecessor record correctly explains the recorded cost. This is
/// what makes the final reconstruction walk well-founded.
pub open spec fn cell_wf(dp: Seq<Seq<usize>>, pre: Seq<Seq<PreEntry>>, i: int, j: int) -> bool {
    &&& dp[i][j] <= INFINITY
    &&& match pre[i][j] {
        PreEntry::Unreached => dp[i][j] == INFINITY,
        PreEntry::Seed => dp[i][j] == 0,
        PreEntry::Merge(t) => 0 < t < j && (t & (j as usize)) == t && dp[i][j] == dp[i][t as int]
            + dp[i][j - t],
        PreEntry::Relax(x) => (x as int) < dp.len() && dp[x as int][j] < dp[i][j],
    }
}

/// Both tables have matching `dp.len()` rows of width `w`, and every cell is
/// locally consistent.
pub open spec fn tables_wf(dp: Seq<Seq<usize>>, pre: Seq<Seq<PreEntry>>, w: int) -> bool {
    &&& pre.len() == dp.len()
    &&& forall|i: int| 0 <= i < dp.len() ==> (#[trigger] dp[i]).len() == w
    &&& forall|i: int| 0 <= i < dp.len() ==> (#[trigger] pre[i]).len() == w
    &&& forall|i: int, j: int|
        0 <= i < dp.len() && 0 <= j < w ==> #[trigger] cell_wf(dp, pre, i, j)
}

/// Every cell in columns `lo..w` still carries no merge or relax record:
/// those masks have not been processed yet.
pub open spec fn unprocessed_from(pre: Seq<Seq<PreEntry>>, lo: int, w: int) -> bool {
    forall|i: int, j: int|
        0 <= i < pre.len() && lo <= j < w ==> ((#[trigger] pre[i][j]) is Unreached || pre[i][j]
            is Seed)
}

/// Column zero (the empty terminal subset) is never touched.
pub open spec fn col_zero_unreached(pre: Seq<Seq<PreEntry>>) -> bool {
    forall|i: int| 0 <= i < pre.len() ==> (#[trigger] pre[i][0]) is Unreached
}

/// Every cell of both tables is in its freshly allocated condition.
pub open spec fn all_unreached(pre: Seq<Seq<PreEntry>>, w: int) -> bool {
    forall|i: int, j: int|
        0 <= i < pre.len() && 0 <= j < w ==> (#[trigger] pre[i][j]) is Unreached
}

/// `(a, b)` is an edge of the graph, in either orientation.
pub open spec fn edge_in(edges: Seq<(usize, usize)>, a: usize, b: usize) -> bool {
    exists|q: int| 0 <= q < edges.len() && ((#[trigger] edges[q]) == (a, b) || edges[q] == (b, a))
}

/// Every relax record names a traversal of an actual graph edge.
pub open spec fn relax_from_graph(
    pre: Seq<Seq<PreEntry>>,
    edges: Seq<(usize, usize)>,
    w: int,
) -> bool {
    forall|v: int, j: int|
        0 <= v < pre.len() && 0 <= j < w ==> match #[trigger] pre[v][j] {
            PreEntry::Relax(x) => edge_in(edges, x, v as usize),
            _ => true,
        }
}

/// Well-formedness of a ghost engine state, by phase. Work units preserve
/// this; the reconstruction in the final work unit depends on it.
pub open spec fn m_wf(m: M) -> bool {
    let w = two_pow(m.terms.len()) as int;
    match m.phase {
        Phase::Allocate => true,
        Phase::Seed => m.dp.len() == m.n && tables_wf(m.dp, m.pre, w) && all_unreached(m.pre, w),
        Phase::MainLoop { loop_index } => m.dp.len() == m.n && tables_wf(m.dp, m.pre, w) && 1
            <= loop_index <= two_pow(m.terms.len()) && unprocessed_from(m.pre, loop_index as int, w)
            && col_zero_unreached(m.pre) && relax_from_graph(m.pre, m.edges, w),
        Phase::Finalize => m.dp.len() == m.n && tables_wf(m.dp, m.pre, w) && col_zero_unreached(
            m.pre,
        ) && relax_from_graph(m.pre, m.edges, w),
    }
}

/// The fresh engine state for a problem instance, before any work unit.
pub open spec fn init_model(n: usize, edges: Seq<(usize, usize)>, terms: Seq<usize>) -> M {
    M {
        n,
        edges,
        terms,
        dp: Seq::empty(),
        pre: Seq::empty(),
        phase: Phase::Allocate,
    }
}

/// Seeding: for each terminal index `i` from `i0` on, set the cost of the
/// terminal's singleton state to zero with a `Seed` record.
pub open spec fn seed_step(
    dp: Seq<Seq<usize>>,
    pre: Seq<Seq<PreEntry>>,
    terms: Seq<usize>,
    i0: int,
) -> (Seq<Seq<usize>>, Seq<Seq<PreEntry>>)
    decreases terms.len() - i0,
{
    if i0 < 0 || i0 >= terms.len() {
        (dp, pre)
    } else {
        let v = terms[i0] as int;
        let mask = two_pow(i0 as nat) as int;
        seed_step(upd2(dp, v, mask, 0), upd2(pre, v, mask, PreEntry::Seed), terms, i0 + 1)
    }
}

/// Merge step for one vertex row: lower the cost at mask `s` by combining
/// each listed submask with its complement, recording the last improvement.
pub open spec fn merge_row(
    row: Seq<usize>,
    prow: Seq<PreEntry>,
    s: int,
    subs: Seq<usize>,
    j0: int,
) -> (Seq<usize>, Seq<PreEntry>)
    decreases subs.len() - j0,
{
    if j0 < 0 || j0 >= subs.len() {
        (row, prow)
    } else {
        let t = subs[j0] as int;
        let cand = row[t] + row[s - t];
        if cand < row[s] {
            merge_row(
                row.update(s, cand as usize),
                prow.update(s, PreEntry::Merge(subs[j0])),
                s,
                subs,
                j0 + 1,
            )
        } else {
            merge_row(row, prow, s, subs, j0 + 1)
        }
    }
}

/// Merge step over all vertex rows from `i0` on.
pub open spec fn merge_grid(
    dp: Seq<Seq<usize>>,
    pre: Seq<Seq<PreEntry>>,
    s: int,
    subs: Seq<usize>,
    i0: int,
) -> (Seq<Seq<usize>>, Seq<Seq<PreEntry>>)
    decreases dp.len() - i0,
{
    if i0 < 0 || i0 >= dp.len() {
        (dp, pre)
    } else {
        let (r2, p2) = merge_row(dp[i0], pre[i0], s, subs, 0);
        merge_grid(dp.update(i0, r2), pre.update(i0, p2), s, subs, i0 + 1)
    }
}

/// Relax one directed edge `(x, y)` of unit weight within column `s`.
pub open spec fn relax_one(
    dp: Seq<Seq<usize>>,
    pre: Seq<Seq<PreEntry>>,
    s: int,
    x: usize,
    y: usize,
) -> (Seq<Seq<usize>>, Seq<Seq<PreEntry>>) {
    let cand = dp[x as int][s] + 1;
    if cand < dp[y as int][s] {
        (upd2(dp, y as int, s, cand as usize), upd2(pre, y as int, s, PreEntry::Relax(x)))
    } else {
        (dp, pre)
    }
}

/// Relax every edge from `j0` on, in both directions, within column `s`.
pub open spec fn relax_pass(
    dp: Seq<Seq<usize>>,
    pre: Seq<Seq<PreEntry>>,
    edges: Seq<(usize, usize)>,
    s: int,
    j0: int,
) -> (Seq<Seq<usize>>, Seq<Seq<PreEntry>>)
    decreases edges.len() - j0,
{
    if j0 < 0 || j0 >= edges.len() {
        (dp, pre)
    } else {
        let (x, y) = edges[j0];
        let (d1, p1) = relax_one(dp, pre, s, x, y);
        let (d2, p2) = relax_one(d1, p1, s, y, x);
        relax_pass(d2, p2, edges, s, j0 + 1)
    }
}

/// `rounds` full relaxation passes within column `s`. With one pass per
/// vertex the column reaches the multi-source shortest-path fixpoint: any
/// shortest propagation path uses fewer than `n` edges.
pub open spec fn relax_rounds(
    dp: Seq<Seq<usize>>,
    pre: Seq<Seq<PreEntry>>,
    edges: Seq<(usize, usize)>,
    s: int,
    rounds: int,
) -> (Seq<Seq<usize>>, Seq<Seq<PreEntry>>)
    decreases rounds,
{
    if rounds <= 0 {
        (dp, pre)
    } else {
        let (d1, p1) = relax_rounds(dp, pre, edges, s, rounds - 1);
        relax_pass(d1, p1, edges, s, 0)
    }
}

/// Processing one subset mask `s`: the merge step, then unit-weight
/// relaxation to the fixpoint.
pub open spec fn process_mask(
    n: usize,
    edges: Seq<(usize, usize)>,
    dp: Seq<Seq<usize>>,
    pre: Seq<Seq<PreEntry>>,
    s: usize,
) -> (Seq<Seq<usize>>, Seq<Seq<PreEntry>>) {
    let (d1, p1) = merge_grid(dp, pre, s as int, submask_list(s, 1), 0);
    relax_rounds(d1, p1, edges, s as int, n as int)
}

/// Scan for the cheapest root: the least cost in column `full`, with the
/// first vertex attaining it (scanning vertices in increasing order from
/// `i0`, starting from the running best `cur`).
pub open spec fn best_pair(
    dp: Seq<Seq<usize>>,
    full: int,
    i0: int,
    cur: (usize, usize),
) -> (usize, usize)
    decreases dp.len() - i0,
{
    if i0 < 0 || i0 >= dp.len() {
        cur
    } else {
        let c = dp[i0][full];
        let nxt = if c < cur.0 {
            (c, i0 as usize)
        } else {
            cur
        };
        best_pair(dp, full, i0 + 1, nxt)
    }
}

/// The edge set reconstructed from the predecessor table, starting at cell
/// `(v, s)`: a merge record expands into the submask and its complement at
/// the same vertex (submask branch first), a relax record contributes the
/// traversed edge and continues at the neighbour, a seed record ends the
/// branch. Well-founded because a merge strictly shrinks the mask and a
/// relax strictly lowers the recorded cost.
pub open spec fn rebuild(
    dp: Seq<Seq<usize>>,
    pre: Seq<Seq<PreEntry>>,
    v: int,
    s: int,
) -> Seq<(usize, usize)>
    decreases s, dp[v][s],
        when tables_wf(dp, pre, row_width(dp)) && 0 <= v < dp.len() && 1 <= s < row_width(dp)
            && dp[v][s] < INFINITY
    via rebuild_decreases
{
    match pre[v][s] {
        PreEntry::Unreached => Seq::empty(),
        PreEntry::Seed => Seq::empty(),
        PreEntry::Merge(t) => rebuild(dp, pre, v, t as int) + rebuild(dp, pre, v, s - t),
        PreEntry::Relax(x) => seq![(x, v as usize)] + rebuild(dp, pre, x as int, s),
    }
}

/// The common width of a table's rows.
pub open spec fn row_width(dp: Seq<Seq<usize>>) -> int {
    if dp.len() > 0 {
        dp[0].len() as int
    } else {
        0
    }
}

#[via_fn]
proof fn rebuild_decreases(dp: Seq<Seq<usize>>, pre: Seq<Seq<PreEntry>>, v: int, s: int) {
    let w = row_width(dp);
    assert(cell_wf(dp, pre, v, s));
    match pre[v][s] {
        PreEntry::Merge(t) => {
            assert(cell_wf(dp, pre, v, t as int));
            assert(cell_wf(dp, pre, v, s - t));
        },
        PreEntry::Relax(x) => {
            assert(cell_wf(dp, pre, x as int, s));
        },
        _ => {},
    }
}

/// The outcome of the final work unit, from the tables alone: either no
/// vertex reaches every terminal, or the optimal cost together with the
/// reconstructed edge set.
pub open spec fn finalize_tab(dp: Seq<Seq<usize>>, pre: Seq<Seq<PreEntry>>, w: int) -> StepRes {
    let full = w - 1;
    let best = best_pair(dp, full, 0, (INFINITY, 0));
    if best.0 >= INFINITY {
        StepRes::Failed(crate::error::ErrorSpec::TerminalNotConnected)
    } else {
        StepRes::Done(best.0, rebuild(dp, pre, best.1 as int, full))
    }
}

/// The outcome of the final work unit on a state whose main loop has ended.
pub open spec fn finalize_res(m: M) -> StepRes {
    finalize_tab(m.dp, m.pre, two_pow(m.terms.len()) as int)
}

/// What the best-root scan returns: a cost no worse than the running best,
/// and, unless the running best stands, a vertex in range attaining it.
pub proof fn lemma_best_pair_props(dp: Seq<Seq<usize>>, full: int, i0: int, cur: (usize, usize))
    requires
        0 <= i0,
        dp.len() <= usize::MAX,
    ensures
        best_pair(dp, full, i0, cur).0 <= cur.0,
        best_pair(dp, full, i0, cur) == cur || (i0 <= best_pair(dp, full, i0, cur).1 < dp.len()
            && dp[best_pair(dp, full, i0, cur).1 as int][full] == best_pair(dp, full, i0, cur).0),
    decreases dp.len() - i0,
{
    if i0 < dp.len() {
        let c = dp[i0][full];
        let nxt = if c < cur.0 {
            (c, i0 as usize)
        } else {
            cur
        };
        lemma_best_pair_props(dp, full, i0 + 1, nxt);
    }
}

/// One work unit: the size check, the recorded validation outcome, then the
/// phase the progress marker names. This function pins the engine's whole
/// behaviour: the executable engine returns exactly `step(m).1` and leaves
/// the state at exactly `step(m).0`.
pub open spec fn step(m: M) -> (M, StepRes) {
    let k = m.terms.len();
    if k >= MAX_TERMINALS || m.n * two_pow(k) >= MAX_TABLE_CELLS {
        (m, StepRes::Failed(crate::error::ErrorSpec::TooLargeInput(m.n)))
    } else if !input_valid(m.n, m.edges, m.terms) {
        (m, StepRes::Failed(crate::error::ErrorSpec::InvalidArg(m.n, m.edges, m.terms)))
    } else {
        let w = two_pow(k) as int;
        match m.phase {
            Phase::Allocate => (
                M {
                    dp: grid_of(m.n as int, w, INFINITY),
                    pre: grid_of(m.n as int, w, PreEntry::Unreached),
                    phase: Phase::Seed,
                    ..m
                },
                StepRes::Yielding,
            ),
            Phase::Seed => {
                let (d, p) = seed_step(m.dp, m.pre, m.terms, 0);
                (
                    M { dp: d, pre: p, phase: Phase::MainLoop { loop_index: 1 }, ..m },
                    StepRes::Yielding,
                )
            },
            Phase::MainLoop { loop_index } => {
                if (loop_index as int) < w {
                    let (d, p) = process_mask(m.n, m.edges, m.dp, m.pre, loop_index);
                    if loop_index as int + 1 < w {
                        (
                            M {
                                dp: d,
                                pre: p,
                                phase: Phase::MainLoop {
                                    loop_index: (loop_index + 1) as usize,
                                },
                                ..m
                            },
                            StepRes::Yielding,
                        )
                    } else {
                        let m2 = M { dp: d, pre: p, phase: Phase::Finalize, ..m };
                        (m2, finalize_res(m2))
                    }
                } else {
                    let m2 = M { phase: Phase::Finalize, ..m };
                    (m2, finalize_res(m2))
                }
            },
            Phase::Finalize => (m, finalize_res(m)),
        }
    }
}

/// An upper bound on the number of work units left before completion.
pub open spec fn steps_left(m: M) -> nat {
    let w = two_pow(m.terms.len());
    match m.phase {
        Phase::Allocate => w + 2,
        Phase::Seed => w + 1,
        Phase::MainLoop { loop_index } => if (loop_index as nat) < w {
            (w - loop_index) as nat
        } else {
            1
        },
        Phase::Finalize => 1,
    }
}

/// The final outcome of driving `step` to completion from `m`.
pub open spec fn run(m: M) -> StepRes
    decreases steps_left(m),
    via run_decreases
{
    let (m2, r) = step(m);
    if r is Yielding {
        run(m2)
    } else {
        r
    }
}

#[via_fn]
proof fn run_decreases(m: M) {
    if step(m).1 is Yielding {
        lemma_step_yield_decreases(m);
    }
}

/// A work unit that pauses leaves strictly fewer work units to go.
pub proof fn lemma_step_yield_decreases(m: M)
    requires
        step(m).1 is Yielding,
    ensures
        steps_left(step(m).0) < steps_left(m),
{
    let k = m.terms.len();
    lemma_two_pow_pos(k);
    if k < MAX_TERMINALS {
        lemma_two_pow_mono(k, 29);
        lemma_two_pow_29();
    }
}

/// The table invariant that holds at every instant while mask `s` is being
/// processed: all cells are locally consistent, no column above `s` has been
/// touched, and column zero never is.
pub open spec fn mask_inv(dp: Seq<Seq<usize>>, pre: Seq<Seq<PreEntry>>, w: int, s: int) -> bool {
    &&& tables_wf(dp, pre, w)
    &&& unprocessed_from(pre, s + 1, w)
    &&& col_zero_unreached(pre)
}

/// A merge improvement at cell `(i0, s)` preserves the mask invariant.
pub proof fn lemma_merge_write_wf(
    dp: Seq<Seq<usize>>,
    pre: Seq<Seq<PreEntry>>,
    w: int,
    s: int,
    i0: int,
    t: usize,
)
    requires
        mask_inv(dp, pre, w, s),
        0 <= i0 < dp.len(),
        1 <= s < w,
        0 < t < s,
        t & (s as usize) == t,
        dp[i0][t as int] + dp[i0][s - t] < dp[i0][s],
    ensures
        mask_inv(
            upd2(dp, i0, s, (dp[i0][t as int] + dp[i0][s - t]) as usize),
            upd2(pre, i0, s, PreEntry::Merge(t)),
            w,
            s,
        ),
{
    let v = (dp[i0][t as int] + dp[i0][s - t]) as usize;
    let dp2 = upd2(dp, i0, s, v);
    let pre2 = upd2(pre, i0, s, PreEntry::Merge(t));
    assert(cell_wf(dp, pre, i0, s));
    assert forall|i: int| 0 <= i < dp2.len() implies (#[trigger] dp2[i]).len() == w by {
        assert(dp[i].len() == w);
    }
    assert forall|i: int| 0 <= i < pre2.len() implies (#[trigger] pre2[i]).len() == w by {
        assert(pre[i].len() == w);
    }
    assert forall|i: int, j: int|
        0 <= i < dp2.len() && 0 <= j < w implies #[trigger] cell_wf(dp2, pre2, i, j) by {
        assert(cell_wf(dp, pre, i, j));
        if i == i0 && j == s {
            assert(dp2[i0][t as int] == dp[i0][t as int]);
            assert(dp2[i0][s - t] == dp[i0][s - t]);
            assert(dp2[i0][s] == v);
        } else {
            assert(dp2[i][j] == dp[i][j]);
            if j > s {
                assert(pre[i][j] is Unreached || pre[i][j] is Seed);
            } else {
                match pre[i][j] {
                    PreEntry::Merge(t2) => {
                        assert(dp2[i][t2 as int] == dp[i][t2 as int]);
                        assert(dp2[i][j - t2] == dp[i][j - t2]);
                    },
                    PreEntry::Relax(x) => {
                        if x as int == i0 && j == s {
                            assert(dp2[x as int][j] == v);
                            assert(v < dp[i0][s]);
                        } else {
                            assert(dp2[x as int][j] == dp[x as int][j]);
                        }
                    },
                    _ => {},
                }
            }
        }
    }
    assert forall|i: int, j: int|
        0 <= i < pre2.len() && s + 1 <= j < w implies ((#[trigger] pre2[i][j]) is Unreached
        || pre2[i][j] is Seed) by {
        assert(pre2[i][j] == pre[i][j]);
    }
    assert forall|i: int| 0 <= i < pre2.len() implies (#[trigger] pre2[i][0]) is Unreached by {
        assert(pre2[i][0] == pre[i][0]);
    }
}

/// A relaxation improvement at cell `(y, s)` from neighbour `x` preserves
/// the mask invariant.
pub proof fn lemma_relax_write_wf(
    dp: Seq<Seq<usize>>,
    pre: Seq<Seq<PreEntry>>,
    w: int,
    s: int,
    x: usize,
    y: usize,
)
    requires
        mask_inv(dp, pre, w, s),
        (x as int) < dp.len(),
        (y as int) < dp.len(),
        1 <= s < w,
        dp[x as int][s] + 1 < dp[y as int][s],
    ensures
        mask_inv(
            upd2(dp, y as int, s, (dp[x as int][s] + 1) as usize),
            upd2(pre, y as int, s, PreEntry::Relax(x)),
            w,
            s,
        ),
{
    let v = (dp[x as int][s] + 1) as usize;
    let dp2 = upd2(dp, y as int, s, v);
    let pre2 = upd2(pre, y as int, s, PreEntry::Relax(x));
    assert(cell_wf(dp, pre, y as int, s));
    assert(cell_wf(dp, pre, x as int, s));
    assert(x != y);
    assert forall|i: int| 0 <= i < dp2.len() implies (#[trigger] dp2[i]).len() == w by {
        assert(dp[i].len() == w);
    }
    assert forall|i: int| 0 <= i < pre2.len() implies (#[trigger] pre2[i]).len() == w by {
        assert(pre[i].len() == w);
    }
    assert forall|i: int, j: int|
        0 <= i < dp2.len() && 0 <= j < w implies #[trigger] cell_wf(dp2, pre2, i, j) by {
        assert(cell_wf(dp, pre, i, j));
        if i == y as int && j == s {
            assert(dp2[x as int][s] == dp[x as int][s]);
            assert(dp2[y as int][s] == v);
        } else {
            assert(dp2[i][j] == dp[i][j]);
            if j > s {
                assert(pre[i][j] is Unreached || pre[i][j] is Seed);
            } else {
                match pre[i][j] {
                    PreEntry::Merge(t2) => {
                        assert(dp2[i][t2 as int] == dp[i][t2 as int]);
                        assert(dp2[i][j - t2] == dp[i][j - t2]);
                    },
                    PreEntry::Relax(x2) => {
                        if x2 as int == y as int && j == s {
                            assert(dp2[x2 as int][j] == v);
                            assert(v < dp[y as int][s]);
                        } else {
                            assert(dp2[x2 as int][j] == dp[x2 as int][j]);
                        }
                    },
                    _ => {},
                }
            }
        }
    }
    assert forall|i: int, j: int|
        0 <= i < pre2.len() && s + 1 <= j < w implies ((#[trigger] pre2[i][j]) is Unreached
        || pre2[i][j] is Seed) by {
        assert(pre2[i][j] == pre[i][j]);
    }
    assert forall|i: int| 0 <= i < pre2.len() implies (#[trigger] pre2[i][0]) is Unreached by {
        assert(pre2[i][0] == pre[i][0]);
    }
}

/// A seed write at cell `(v, mask)` preserves well-formedness while the
/// tables carry only seed and unreached records.
pub proof fn lemma_seed_write_wf(
    dp: Seq<Seq<usize>>,
    pre: Seq<Seq<PreEntry>>,
    w: int,
    v: int,
    mask: int,
)
    requires
        tables_wf(dp, pre, w),
        unprocessed_from(pre, 0, w),
        col_zero_unreached(pre),
        0 <= v < dp.len(),
        1 <= mask < w,
    ensures
        tables_wf(upd2(dp, v, mask, 0), upd2(pre, v, mask, PreEntry::Seed), w),
        unprocessed_from(upd2(pre, v, mask, PreEntry::Seed), 0, w),
        col_zero_unreached(upd2(pre, v, mask, PreEntry::Seed)),
{
    let dp2 = upd2(dp, v, mask, 0);
    let pre2 = upd2(pre, v, mask, PreEntry::Seed);
    assert forall|i: int| 0 <= i < dp2.len() implies (#[trigger] dp2[i]).len() == w by {
        assert(dp[i].len() == w);
    }
    assert forall|i: int| 0 <= i < pre2.len() implies (#[trigger] pre2[i]).len() == w by {
        assert(pre[i].len() == w);
    }
    assert forall|i: int, j: int|
        0 <= i < dp2.len() && 0 <= j < w implies #[trigger] cell_wf(dp2, pre2, i, j) by {
        assert(cell_wf(dp, pre, i, j));
        if i == v && j == mask {
            assert(dp2[i][j] == 0);
        } else {
            assert(dp2[i][j] == dp[i][j]);
            assert(pre[i][j] is Unreached || pre[i][j] is Seed);
        }
    }
    assert forall|i: int, j: int|
        0 <= i < pre2.len() && 0 <= j < w implies ((#[trigger] pre2[i][j]) is Unreached
        || pre2[i][j] is Seed) by {
        if !(i == v && j == mask) {
            assert(pre2[i][j] == pre[i][j]);
        }
    }
    assert forall|i: int| 0 <= i < pre2.len() implies (#[trigger] pre2[i][0]) is Unreached by {
        assert(pre2[i][0] == pre[i][0]);
    }
}

/// Freshly allocated tables are well formed and entirely unreached.
pub proof fn lemma_fresh_tables(n: int, w: int)
    requires
        n >= 0,
        w >= 1,
    ensures
        tables_wf(grid_of(n, w, INFINITY), grid_of(n, w, PreEntry::Unreached), w),
        all_unreached(grid_of(n, w, PreEntry::Unreached), w),
        unprocessed_from(grid_of(n, w, PreEntry::Unreached), 0, w),
        col_zero_unreached(grid_of(n, w, PreEntry::Unreached)),
        grid_of(n, w, INFINITY).len() == n,
        grid_of(n, w, PreEntry::Unreached).len() == n,
{
    let dp = grid_of(n, w, INFINITY);
    let pre = grid_of(n, w, PreEntry::Unreached);
    assert forall|i: int, j: int|
        0 <= i < dp.len() && 0 <= j < w implies #[trigger] cell_wf(dp, pre, i, j) by {
        assert(dp[i][j] == INFINITY);
        assert(pre[i][j] is Unreached);
    }
}

/// A full relaxation pass preserves the mask invariant.
pub proof fn lemma_relax_pass_inv(
    dp: Seq<Seq<usize>>,
    pre: Seq<Seq<PreEntry>>,
    edges: Seq<(usize, usize)>,
    s: int,
    j0: int,
    w: int,
)
    requires
        mask_inv(dp, pre, w, s),
        1 <= s < w,
        forall|j: int|
            0 <= j < edges.len() ==> ((#[trigger] edges[j]).0 as int) < dp.len()
                && (edges[j].1 as int) < dp.len(),
    ensures
        mask_inv(
            relax_pass(dp, pre, edges, s, j0).0,
            relax_pass(dp, pre, edges, s, j0).1,
            w,
            s,
        ),
        relax_pass(dp, pre, edges, s, j0).0.len() == dp.len(),
        relax_pass(dp, pre, edges, s, j0).1.len() == pre.len(),
    decreases edges.len() - j0,
{
    if 0 <= j0 < edges.len() {
        let (x, y) = edges[j0];
        assert(cell_wf(dp, pre, x as int, s));
        assert(cell_wf(dp, pre, y as int, s));
        let (d1, p1) = relax_one(dp, pre, s, x, y);
        if dp[x as int][s] + 1 < dp[y as int][s] {
            lemma_relax_write_wf(dp, pre, w, s, x, y);
        }
        assert(cell_wf(d1, p1, x as int, s));
        assert(cell_wf(d1, p1, y as int, s));
        let (d2, p2) = relax_one(d1, p1, s, y, x);
        if d1[y as int][s] + 1 < d1[x as int][s] {
            lemma_relax_write_wf(d1, p1, w, s, y, x);
        }
        lemma_relax_pass_inv(d2, p2, edges, s, j0 + 1, w);
    }
}

/// Any number of relaxation rounds preserves the mask invariant.
pub proof fn lemma_relax_rounds_inv(
    dp: Seq<Seq<usize>>,
    pre: Seq<Seq<PreEntry>>,
    edges: Seq<(usize, usize)>,
    s: int,
    rounds: int,
    w: int,
)
    requires
        mask_inv(dp, pre, w, s),
        1 <= s < w,
        forall|j: int|
            0 <= j < edges.len() ==> ((#[trigger] edges[j]).0 as int) < dp.len()
                && (edges[j].1 as int) < dp.len(),
    ensures
        mask_inv(
            relax_rounds(dp, pre, edges, s, rounds).0,
            relax_rounds(dp, pre, edges, s, rounds).1,
            w,
            s,
        ),
        relax_rounds(dp, pre, edges, s, rounds).0.len() == dp.len(),
        relax_rounds(dp, pre, edges, s, rounds).1.len() == pre.len(),
    decreases rounds,
{
    if rounds > 0 {
        lemma_relax_rounds_inv(dp, pre, edges, s, rounds - 1, w);
        let (d1, p1) = relax_rounds(dp, pre, edges, s, rounds - 1);
        lemma_relax_pass_inv(d1, p1, edges, s, 0, w);
    }
}

/// The merge step rewrites predecessor records to merge records only.
proof fn lemma_merge_row_pre_shape(
    row: Seq<usize>,
    prow: Seq<PreEntry>,
    s: int,
    subs: Seq<usize>,
    j0: int,
)
    requires
        0 <= s < prow.len(),
    ensures
        merge_row(row, prow, s, subs, j0).1.len() == prow.len(),
        forall|j: int|
            0 <= j < prow.len() ==> (#[trigger] merge_row(row, prow, s, subs, j0).1[j]) == prow[j]
                || merge_row(row, prow, s, subs, j0).1[j] is Merge,
    decreases subs.len() - j0,
{
    if 0 <= j0 < subs.len() {
        let t = subs[j0] as int;
        let cand = row[t] + row[s - t];
        if cand < row[s] {
            let row2 = row.update(s, cand as usize);
            let prow2 = prow.update(s, PreEntry::Merge(subs[j0]));
            lemma_merge_row_pre_shape(row2, prow2, s, subs, j0 + 1);
            assert forall|j: int|
                0 <= j < prow.len() implies (#[trigger] merge_row(row, prow, s, subs, j0).1[j])
                == prow[j] || merge_row(row, prow, s, subs, j0).1[j] is Merge by {
                if j != s {
                    assert(prow2[j] == prow[j]);
                }
            }
        } else {
            lemma_merge_row_pre_shape(row, prow, s, subs, j0 + 1);
        }
    }
}

/// The merge step introduces no relax record, so it keeps every relax record
/// tied to a graph edge.
pub proof fn lemma_merge_grid_graph(
    dp: Seq<Seq<usize>>,
    pre: Seq<Seq<PreEntry>>,
    s: int,
    subs: Seq<usize>,
    i0: int,
    edges: Seq<(usize, usize)>,
    w: int,
)
    requires
        relax_from_graph(pre, edges, w),
        pre.len() == dp.len(),
        forall|i: int| 0 <= i < pre.len() ==> (#[trigger] pre[i]).len() == w,
        0 <= s < w,
    ensures
        relax_from_graph(merge_grid(dp, pre, s, subs, i0).1, edges, w),
        merge_grid(dp, pre, s, subs, i0).1.len() == pre.len(),
        forall|i: int|
            0 <= i < pre.len() ==> (#[trigger] merge_grid(dp, pre, s, subs, i0).1[i]).len() == w,
    decreases dp.len() - i0,
{
    if 0 <= i0 < dp.len() {
        lemma_merge_row_pre_shape(dp[i0], pre[i0], s, subs, 0);
        let (r2, p2) = merge_row(dp[i0], pre[i0], s, subs, 0);
        let d2 = dp.update(i0, r2);
        let pr2 = pre.update(i0, p2);
        assert forall|a: int| 0 <= a < pre.len() implies (#[trigger] pr2[a]).len() == w by {
            if a != i0 {
                assert(pre[a].len() == w);
            }
        }
        assert forall|v: int, j: int|
            0 <= v < pr2.len() && 0 <= j < w implies match #[trigger] pr2[v][j] {
            PreEntry::Relax(x) => edge_in(edges, x, v as usize),
            _ => true,
        } by {
            if v != i0 {
                assert(pr2[v][j] == pre[v][j]);
            } else {
                assert(pr2[i0] == p2);
                assert(p2[j] == pre[i0][j] || p2[j] is Merge);
            }
        }
        lemma_merge_grid_graph(d2, pr2, s, subs, i0 + 1, edges, w);
    }
}

/// Relaxation writes only relax records that traverse an actual graph edge.
pub proof fn lemma_relax_pass_graph(
    dp: Seq<Seq<usize>>,
    pre: Seq<Seq<PreEntry>>,
    edges: Seq<(usize, usize)>,
    s: int,
    j0: int,
    w: int,
)
    requires
        relax_from_graph(pre, edges, w),
        pre.len() == dp.len(),
        forall|i: int| 0 <= i < pre.len() ==> (#[trigger] pre[i]).len() == w,
        0 <= s < w,
        forall|j: int|
            0 <= j < edges.len() ==> ((#[trigger] edges[j]).0 as int) < dp.len()
                && (edges[j].1 as int) < dp.len(),
    ensures
        relax_from_graph(relax_pass(dp, pre, edges, s, j0).1, edges, w),
        relax_pass(dp, pre, edges, s, j0).1.len() == pre.len(),
        relax_pass(dp, pre, edges, s, j0).0.len() == dp.len(),
        forall|i: int|
            0 <= i < pre.len() ==> (#[trigger] relax_pass(dp, pre, edges, s, j0).1[i]).len() == w,
    decreases edges.len() - j0,
{
    if 0 <= j0 < edges.len() {
        let (x, y) = edges[j0];
        let (d1, p1) = relax_one(dp, pre, s, x, y);
        lemma_relax_one_graph(dp, pre, edges, s, x, y, w, j0);
        let (d2, p2) = relax_one(d1, p1, s, y, x);
        lemma_relax_one_graph(d1, p1, edges, s, y, x, w, j0);
        lemma_relax_pass_graph(d2, p2, edges, s, j0 + 1, w);
    }
}

proof fn lemma_relax_one_graph(
    dp: Seq<Seq<usize>>,
    pre: Seq<Seq<PreEntry>>,
    edges: Seq<(usize, usize)>,
    s: int,
    x: usize,
    y: usize,
    w: int,
    j0: int,
)
    requires
        relax_from_graph(pre, edges, w),
        pre.len() == dp.len(),
        forall|i: int| 0 <= i < pre.len() ==> (#[trigger] pre[i]).len() == w,
        0 <= s < w,
        (x as int) < dp.len(),
        (y as int) < dp.len(),
        0 <= j0 < edges.len(),
        edges[j0] == (x, y) || edges[j0] == (y, x),
    ensures
        relax_from_graph(relax_one(dp, pre, s, x, y).1, edges, w),
        relax_one(dp, pre, s, x, y).1.len() == pre.len(),
        relax_one(dp, pre, s, x, y).0.len() == dp.len(),
        forall|i: int|
            0 <= i < pre.len() ==> (#[trigger] relax_one(dp, pre, s, x, y).1[i]).len() == w,
{
    if dp[x as int][s] + 1 < dp[y as int][s] {
        let p1 = upd2(pre, y as int, s, PreEntry::Relax(x));
        assert(edge_in(edges, x, y));
        assert forall|a: int| 0 <= a < pre.len() implies (#[trigger] p1[a]).len() == w by {
            if a != y as int {
                assert(pre[a].len() == w);
            }
        }
        assert forall|v: int, j: int|
            0 <= v < p1.len() && 0 <= j < w implies match #[trigger] p1[v][j] {
            PreEntry::Relax(x2) => edge_in(edges, x2, v as usize),
            _ => true,
        } by {
            if !(v == y as int && j == s) {
                assert(p1[v][j] == pre[v][j]);
            }
        }
    }
}

/// Relaxation rounds keep every relax record tied to a graph edge.
pub proof fn lemma_relax_rounds_graph(
    dp: Seq<Seq<usize>>,
    pre: Seq<Seq<PreEntry>>,
    edges: Seq<(usize, usize)>,
    s: int,
    rounds: int,
    w: int,
)
    requires
        relax_from_graph(pre, edges, w),
        pre.len() == dp.len(),
        forall|i: int| 0 <= i < pre.len() ==> (#[trigger] pre[i]).len() == w,
        0 <= s < w,
        forall|j: int|
            0 <= j < edges.len() ==> ((#[trigger] edges[j]).0 as int) < dp.len()
                && (edges[j].1 as int) < dp.len(),
    ensures
        relax_from_graph(relax_rounds(dp, pre, edges, s, rounds).1, edges, w),
        relax_rounds(dp, pre, edges, s, rounds).1.len() == pre.len(),
        relax_rounds(dp, pre, edges, s, rounds).0.len() == dp.len(),
        forall|i: int|
            0 <= i < pre.len() ==> (#[trigger] relax_rounds(dp, pre, edges, s, rounds).1[i]).len()
                == w,
    decreases rounds,
{
    if rounds > 0 {
        lemma_relax_rounds_graph(dp, pre, edges, s, rounds - 1, w);
        let (d1, p1) = relax_rounds(dp, pre, edges, s, rounds - 1);
        lemma_relax_pass_graph(d1, p1, edges, s, 0, w);
    }
}

/// The state after `j` work units from `m`.
pub open spec fn iterate(m: M, j: nat) -> M
    decreases j,
{
    if j == 0 {
        m
    } else {
        step(iterate(m, (j - 1) as nat)).0
    }
}

} // verus!
