//! Global laws of the engine, stated and proved over the model in `model`.
//! Together with the exact contracts of `compute` and `compute_blocking`
//! they transfer directly to the executable engine.

use vstd::prelude::*;
use crate::error::ErrorSpec;
use crate::model::{
    best_pair, cell_wf, edge_in, finalize_res, grid_of, init_model, input_valid, iterate,
    lemma_best_pair_props, m_wf, relax_from_graph,
    lemma_fresh_tables, lemma_relax_rounds_inv, lemma_seed_write_wf, lemma_step_yield_decreases,
    lemma_two_pow_29, lemma_two_pow_mono, lemma_two_pow_pos, lemma_two_pow_strict_mono, mask_inv,
    merge_grid, merge_row, rebuild,
    relax_one, relax_pass, relax_rounds, row_width, run, seed_step, step, steps_left, tables_wf,
    too_large, two_pow, upd2, Phase, PreEntry, StepRes, INFINITY, M,
};
use crate::subsets::{lemma_submask_list_props, submask_list};

verus! {

/// Both tables are `n` rows of width `w`.
spec fn dims_ok(dp: Seq<Seq<usize>>, pre: Seq<Seq<PreEntry>>, n: int, w: int) -> bool {
    &&& dp.len() == n
    &&& pre.len() == n
    &&& forall|i: int| 0 <= i < n ==> (#[trigger] dp[i]).len() == w
    &&& forall|i: int| 0 <= i < n ==> (#[trigger] pre[i]).len() == w
}

/// The single-terminal shape of column one: the terminal's own cell is a
/// zero-cost seed, and every other vertex costs at least one.
spec fn single_col(dp: Seq<Seq<usize>>, pre: Seq<Seq<PreEntry>>, t0: int, n: int) -> bool {
    &&& dp[t0][1] == 0
    &&& pre[t0][1] is Seed
    &&& forall|v: int| 0 <= v < n && v != t0 ==> #[trigger] dp[v][1] >= 1
}

proof fn lemma_relax_pass_single(
    dp: Seq<Seq<usize>>,
    pre: Seq<Seq<PreEntry>>,
    edges: Seq<(usize, usize)>,
    j0: int,
    t0: int,
    n: int,
    w: int,
)
    requires
        dims_ok(dp, pre, n, w),
        1 < w,
        0 <= t0 < n,
        single_col(dp, pre, t0, n),
        forall|j: int|
            0 <= j < edges.len() ==> ((#[trigger] edges[j]).0 as int) < n
                && (edges[j].1 as int) < n,
    ensures
        dims_ok(relax_pass(dp, pre, edges, 1, j0).0, relax_pass(dp, pre, edges, 1, j0).1, n, w),
        single_col(relax_pass(dp, pre, edges, 1, j0).0, relax_pass(dp, pre, edges, 1, j0).1, t0, n),
    decreases edges.len() - j0,
{
    if 0 <= j0 < edges.len() {
        let (x, y) = edges[j0];
        let (d1, p1) = relax_one(dp, pre, 1, x, y);
        lemma_relax_one_single(dp, pre, x, y, t0, n, w);
        let (d2, p2) = relax_one(d1, p1, 1, y, x);
        lemma_relax_one_single(d1, p1, y, x, t0, n, w);
        lemma_relax_pass_single(d2, p2, edges, j0 + 1, t0, n, w);
    }
}

proof fn lemma_relax_one_single(
    dp: Seq<Seq<usize>>,
    pre: Seq<Seq<PreEntry>>,
    x: usize,
    y: usize,
    t0: int,
    n: int,
    w: int,
)
    requires
        dims_ok(dp, pre, n, w),
        1 < w,
        0 <= t0 < n,
        single_col(dp, pre, t0, n),
        (x as int) < n,
        (y as int) < n,
    ensures
        dims_ok(relax_one(dp, pre, 1, x, y).0, relax_one(dp, pre, 1, x, y).1, n, w),
        single_col(relax_one(dp, pre, 1, x, y).0, relax_one(dp, pre, 1, x, y).1, t0, n),
{
    if dp[x as int][1] + 1 < dp[y as int][1] {
        let v = (dp[x as int][1] + 1) as usize;
        let d1 = upd2(dp, y as int, 1, v);
        let p1 = upd2(pre, y as int, 1, PreEntry::Relax(x));
        assert(y as int != t0);
        assert forall|i: int| 0 <= i < n implies (#[trigger] d1[i]).len() == w by {
            assert(dp[i].len() == w);
        }
        assert forall|i: int| 0 <= i < n implies (#[trigger] p1[i]).len() == w by {
            assert(pre[i].len() == w);
        }
        assert(d1[t0][1] == dp[t0][1]);
        assert(p1[t0][1] == pre[t0][1]);
        assert forall|v2: int| 0 <= v2 < n && v2 != t0 implies #[trigger] d1[v2][1] >= 1 by {
            if v2 != y as int {
                assert(d1[v2][1] == dp[v2][1]);
            }
        }
    }
}

proof fn lemma_relax_rounds_single(
    dp: Seq<Seq<usize>>,
    pre: Seq<Seq<PreEntry>>,
    edges: Seq<(usize, usize)>,
    rounds: int,
    t0: int,
    n: int,
    w: int,
)
    requires
        dims_ok(dp, pre, n, w),
        1 < w,
        0 <= t0 < n,
        single_col(dp, pre, t0, n),
        forall|j: int|
            0 <= j < edges.len() ==> ((#[trigger] edges[j]).0 as int) < n
                && (edges[j].1 as int) < n,
    ensures
        dims_ok(
            relax_rounds(dp, pre, edges, 1, rounds).0,
            relax_rounds(dp, pre, edges, 1, rounds).1,
            n,
            w,
        ),
        single_col(
            relax_rounds(dp, pre, edges, 1, rounds).0,
            relax_rounds(dp, pre, edges, 1, rounds).1,
            t0,
            n,
        ),
    decreases rounds,
{
    if rounds > 0 {
        lemma_relax_rounds_single(dp, pre, edges, rounds - 1, t0, n, w);
        let (d1, p1) = relax_rounds(dp, pre, edges, 1, rounds - 1);
        lemma_relax_pass_single(d1, p1, edges, 0, t0, n, w);
    }
}

/// A merge step over an empty submask list changes nothing.
proof fn lemma_merge_grid_empty(dp: Seq<Seq<usize>>, pre: Seq<Seq<PreEntry>>, s: int, i0: int)
    requires
        pre.len() == dp.len(),
    ensures
        merge_grid(dp, pre, s, Seq::<usize>::empty(), i0) == (dp, pre),
    decreases dp.len() - i0,
{
    if 0 <= i0 < dp.len() {
        assert(merge_row(dp[i0], pre[i0], s, Seq::<usize>::empty(), 0) == (dp[i0], pre[i0]));
        assert(dp.update(i0, dp[i0]) =~= dp);
        assert(pre.update(i0, pre[i0]) =~= pre);
        lemma_merge_grid_empty(dp, pre, s, i0 + 1);
    }
}

/// When exactly one vertex attains cost zero and every other vertex costs at
/// least one, the best-root scan returns that vertex with cost zero.
proof fn lemma_best_scan_unique_zero(
    dp: Seq<Seq<usize>>,
    full: int,
    i0: int,
    cur: (usize, usize),
    t0: int,
)
    requires
        0 <= i0,
        0 <= t0 < dp.len(),
        dp.len() <= usize::MAX,
        dp[t0][full] == 0,
        forall|v: int| 0 <= v < dp.len() && v != t0 ==> #[trigger] dp[v][full] >= 1,
        (i0 <= t0 && cur.0 >= 1) || (i0 > t0 && cur == (0usize, t0 as usize)),
    ensures
        best_pair(dp, full, i0, cur) == (0usize, t0 as usize),
    decreases dp.len() - i0,
{
    if i0 < dp.len() {
        let c = dp[i0][full];
        let nxt = if c < cur.0 {
            (c, i0 as usize)
        } else {
            cur
        };
        if i0 != t0 {
            assert(dp[i0][full] >= 1);
        }
        lemma_best_scan_unique_zero(dp, full, i0 + 1, nxt, t0);
    }
}

/// Suspension does not alter results: if the first `j` work units all
/// paused, driving the engine to completion from the suspended state yields
/// exactly the outcome of driving it from the fresh state. Since `compute`
/// performs exactly one model step per call, any schedule of pauses and
/// resumptions produces the same final `(cost, edge set)` outcome as the
/// non-suspending variant.
pub proof fn lemma_suspension_transparent(m: M, j: nat)
    requires
        forall|i: nat| i < j ==> (#[trigger] step(iterate(m, i)).1) is Yielding,
    ensures
        run(iterate(m, j)) == run(m),
    decreases j,
{
    if j > 0 {
        lemma_suspension_transparent(m, (j - 1) as nat);
        assert(step(iterate(m, (j - 1) as nat)).1 is Yielding);
        assert(iterate(m, j) == step(iterate(m, (j - 1) as nat)).0);
    }
}

/// An oversized instance — too many terminals, or a projected table beyond
/// the ceiling — is rejected with `TooLargeInput` whatever the edges and
/// terminal values are, before any validation or allocation.
pub proof fn lemma_oversized_rejected(n: usize, edges: Seq<(usize, usize)>, terms: Seq<usize>)
    requires
        too_large(n, terms.len()),
    ensures
        run(init_model(n, edges, terms)) == StepRes::Failed(ErrorSpec::TooLargeInput(n)),
{
}

/// An edge endpoint or terminal index equal to `n` (or beyond) is rejected:
/// unless the size check rejects the instance first, the run reports the
/// invalid argument, echoing the offending input.
pub proof fn lemma_out_of_range_rejected(n: usize, edges: Seq<(usize, usize)>, terms: Seq<usize>)
    requires
        !too_large(n, terms.len()),
        (exists|j: int|
            0 <= j < edges.len() && ((#[trigger] edges[j]).0 >= n || edges[j].1 >= n)) || (exists|
            j: int,
        | 0 <= j < terms.len() && #[trigger] terms[j] >= n),
    ensures
        run(init_model(n, edges, terms)) == StepRes::Failed(
            ErrorSpec::InvalidArg(n, edges, terms),
        ),
{
    assert(!input_valid(n, edges, terms));
}

/// With a single terminal (and an instance small enough to pass the size
/// check), the run always completes with cost zero and an empty edge set:
/// the terminal alone is its own optimal Steiner tree.
pub proof fn lemma_single_terminal_zero_cost(n: usize, edges: Seq<(usize, usize)>, terms: Seq<usize>)
    requires
        terms.len() == 1,
        input_valid(n, edges, terms),
        !too_large(n, terms.len()),
    ensures
        run(init_model(n, edges, terms)) == StepRes::Done(0, Seq::<(usize, usize)>::empty()),
{
    let m0 = init_model(n, edges, terms);
    let t0 = terms[0] as int;
    assert(two_pow(1) == 2);
    assert(two_pow(0) == 1);
    assert(terms[0] < n);

    // Work unit one: allocation.
    let m1 = step(m0).0;
    lemma_fresh_tables(n as int, 2);
    assert(step(m0).1 is Yielding);
    assert(run(m0) == run(m1));
    let d1 = grid_of::<usize>(n as int, 2, INFINITY);
    let p1 = grid_of::<PreEntry>(n as int, 2, PreEntry::Unreached);
    assert(m1.dp == d1 && m1.pre == p1 && m1.phase is Seed);

    // Work unit two: seeding the one terminal.
    let m2 = step(m1).0;
    let d2 = upd2(d1, t0, 1, 0);
    let p2 = upd2(p1, t0, 1, PreEntry::Seed);
    assert(seed_step(d2, p2, terms, 1) == (d2, p2));
    assert(seed_step(d1, p1, terms, 0) == (d2, p2));
    lemma_seed_write_wf(d1, p1, 2, t0, 1);
    assert(step(m1).1 is Yielding);
    assert(run(m1) == run(m2));
    assert(m2.dp == d2 && m2.pre == p2 && m2.phase == (Phase::MainLoop { loop_index: 1usize }));

    assert(dims_ok(d2, p2, n as int, 2)) by {
        assert forall|i: int| 0 <= i < n implies (#[trigger] d2[i]).len() == 2 by {
            assert(d1[i].len() == 2);
        }
        assert forall|i: int| 0 <= i < n implies (#[trigger] p2[i]).len() == 2 by {
            assert(p1[i].len() == 2);
        }
    }
    assert(single_col(d2, p2, t0, n as int)) by {
        assert(d2[t0][1] == 0);
        assert(p2[t0][1] is Seed);
        assert forall|v: int| 0 <= v < n && v != t0 implies #[trigger] d2[v][1] >= 1 by {
            assert(d2[v][1] == d1[v][1]);
            assert(d1[v][1] == INFINITY);
        }
    }
    assert(mask_inv(d2, p2, 2, 1));

    // Work unit three: the single subset mask, then the final extraction.
    assert(submask_list(1, 1) == Seq::<usize>::empty());
    lemma_merge_grid_empty(d2, p2, 1, 0);
    let d3 = relax_rounds(d2, p2, edges, 1, n as int).0;
    let p3 = relax_rounds(d2, p2, edges, 1, n as int).1;
    lemma_relax_rounds_single(d2, p2, edges, n as int, t0, n as int, 2);
    lemma_relax_rounds_inv(d2, p2, edges, 1, n as int, 2);
    let m3 = step(m2).0;
    assert(m3.dp == d3 && m3.pre == p3 && m3.phase is Finalize);

    lemma_best_scan_unique_zero(d3, 1, 0, (INFINITY, 0usize), t0);
    assert(best_pair(d3, 1, 0, (INFINITY, 0usize)) == (0usize, terms[0]));
    assert(tables_wf(d3, p3, 2));
    assert(row_width(d3) == 2) by {
        assert(d3[0].len() == 2);
    }
    assert(rebuild(d3, p3, t0, 1) == Seq::<(usize, usize)>::empty()) by {
        assert(p3[t0][1] is Seed);
    }
    assert(step(m2).1 == StepRes::Done(0, Seq::<(usize, usize)>::empty()));
    assert(run(m2) == step(m2).1);
}

proof fn lemma_rebuild_in_graph(
    dp: Seq<Seq<usize>>,
    pre: Seq<Seq<PreEntry>>,
    edges: Seq<(usize, usize)>,
    v: int,
    s: int,
)
    requires
        tables_wf(dp, pre, row_width(dp)),
        relax_from_graph(pre, edges, row_width(dp)),
        0 <= v < dp.len(),
        1 <= s < row_width(dp),
        dp[v][s] < INFINITY,
    ensures
        forall|q: int|
            0 <= q < rebuild(dp, pre, v, s).len() ==> edge_in(
                edges,
                (#[trigger] rebuild(dp, pre, v, s)[q]).0,
                rebuild(dp, pre, v, s)[q].1,
            ),
    decreases s, dp[v][s],
{
    assert(cell_wf(dp, pre, v, s));
    let out = rebuild(dp, pre, v, s);
    match pre[v][s] {
        PreEntry::Unreached => {},
        PreEntry::Seed => {},
        PreEntry::Merge(t) => {
            assert(cell_wf(dp, pre, v, t as int));
            assert(cell_wf(dp, pre, v, s - t));
            lemma_rebuild_in_graph(dp, pre, edges, v, t as int);
            lemma_rebuild_in_graph(dp, pre, edges, v, s - t);
            let left = rebuild(dp, pre, v, t as int);
            let right = rebuild(dp, pre, v, s - t);
            assert forall|q: int|
                0 <= q < out.len() implies edge_in(
                edges,
                (#[trigger] out[q]).0,
                out[q].1,
            ) by {
                if q < left.len() {
                    assert(out[q] == left[q]);
                } else {
                    assert(out[q] == right[q - left.len()]);
                }
            }
        },
        PreEntry::Relax(x) => {
            assert(cell_wf(dp, pre, x as int, s));
            lemma_rebuild_in_graph(dp, pre, edges, x as int, s);
            let rest = rebuild(dp, pre, x as int, s);
            assert(edge_in(edges, x, v as usize));
            assert forall|q: int|
                0 <= q < out.len() implies edge_in(
                edges,
                (#[trigger] out[q]).0,
                out[q].1,
            ) by {
                if q == 0 {
                    assert(out[0] == (x, v as usize));
                } else {
                    assert(out[q] == rest[q - 1]);
                }
            }
        },
    }
}

/// Part of the returned-subgraph guarantee: every edge in a returned edge
/// set is an edge of the input graph (in one orientation or the other). It
/// holds of the final work unit on any well-formed completed state, and the
/// engine's work units establish and preserve that well-formedness.
pub proof fn lemma_solution_edges_from_graph(m: M)
    requires
        m_wf(m),
        m.phase is Finalize,
    ensures
        match finalize_res(m) {
            StepRes::Done(cost, es) => forall|q: int|
                0 <= q < es.len() ==> edge_in(m.edges, (#[trigger] es[q]).0, es[q].1),
            _ => true,
        },
{
    let w = two_pow(m.terms.len()) as int;
    lemma_two_pow_pos(m.terms.len());
    let full = w - 1;
    lemma_best_pair_props(m.dp, full, 0, (INFINITY, 0usize));
    let best = best_pair(m.dp, full, 0, (INFINITY, 0usize));
    if best.0 < INFINITY {
        assert(m.dp[best.1 as int][full] == best.0);
        if full == 0 {
            assert(cell_wf(m.dp, m.pre, best.1 as int, 0));
            assert(false);
        }
        assert(row_width(m.dp) == w) by {
            assert(m.dp[0].len() == w);
        }
        lemma_rebuild_in_graph(m.dp, m.pre, m.edges, best.1 as int, full);
    }
}

/// No two terminals name the same vertex.
pub open spec fn distinct_terminals(terms: Seq<usize>) -> bool {
    forall|i: int, j: int|
        0 <= i < j < terms.len() ==> (#[trigger] terms[i]) != (#[trigger] terms[j])
}

/// The edgeless shape of the tables: a cell is reached only if it is a
/// terminal's own singleton state, with cost zero.
spec fn sparse_inv(dp: Seq<Seq<usize>>, terms: Seq<usize>, w: int) -> bool {
    forall|v: int, j: int|
        0 <= v < dp.len() && 0 <= j < w && #[trigger] dp[v][j] < INFINITY ==> dp[v][j] == 0
            && (exists|i: int|
            0 <= i < terms.len() && (#[trigger] terms[i]) == v && j == two_pow(i as nat) as int)
}

/// A power of two never equals `2^k - 1` when `k >= 2`.
proof fn lemma_singleton_ne_full(i: nat, k: nat)
    requires
        k >= 2,
    ensures
        two_pow(i) != two_pow(k) - 1,
{
    if i == 0 {
        lemma_two_pow_strict_mono(1, k);
        assert(two_pow(0) == 1);
        assert(two_pow(1) == 2);
    } else {
        lemma_two_pow_pos((i - 1) as nat);
        lemma_two_pow_pos((k - 1) as nat);
        assert(two_pow(i) == 2 * two_pow((i - 1) as nat));
        assert(two_pow(k) == 2 * two_pow((k - 1) as nat));
    }
}

proof fn lemma_seed_sparse(
    dp: Seq<Seq<usize>>,
    pre: Seq<Seq<PreEntry>>,
    terms: Seq<usize>,
    i0: int,
    n: int,
    w: int,
)
    requires
        dims_ok(dp, pre, n, w),
        sparse_inv(dp, terms, w),
        forall|i: int|
            0 <= i < terms.len() ==> ((#[trigger] terms[i]) as int) < n && two_pow(i as nat) < w,
    ensures
        dims_ok(seed_step(dp, pre, terms, i0).0, seed_step(dp, pre, terms, i0).1, n, w),
        sparse_inv(seed_step(dp, pre, terms, i0).0, terms, w),
    decreases terms.len() - i0,
{
    if 0 <= i0 < terms.len() {
        let v = terms[i0] as int;
        let mask = two_pow(i0 as nat) as int;
        let d2 = upd2(dp, v, mask, 0);
        let p2 = upd2(pre, v, mask, PreEntry::Seed);
        lemma_two_pow_pos(i0 as nat);
        assert forall|a: int| 0 <= a < n implies (#[trigger] d2[a]).len() == w by {
            assert(dp[a].len() == w);
        }
        assert forall|a: int| 0 <= a < n implies (#[trigger] p2[a]).len() == w by {
            assert(pre[a].len() == w);
        }
        assert forall|v2: int, j2: int|
            0 <= v2 < d2.len() && 0 <= j2 < w && #[trigger] d2[v2][j2] < INFINITY implies d2[v2][j2]
            == 0 && (exists|i: int|
            0 <= i < terms.len() && (#[trigger] terms[i]) == v2 && j2 == two_pow(i as nat) as int) by {
            if v2 == v && j2 == mask {
                assert(terms[i0] == v2 && j2 == two_pow(i0 as nat) as int);
            } else {
                assert(d2[v2][j2] == dp[v2][j2]);
            }
        }
        lemma_seed_sparse(d2, p2, terms, i0 + 1, n, w);
    }
}

proof fn lemma_merge_row_sparse(
    row: Seq<usize>,
    prow: Seq<PreEntry>,
    v: int,
    s: int,
    subs: Seq<usize>,
    j0: int,
    terms: Seq<usize>,
    w: int,
)
    requires
        row.len() == w,
        prow.len() == w,
        1 <= s < w,
        w <= usize::MAX,
        distinct_terminals(terms),
        forall|q: int|
            0 <= q < subs.len() ==> 0 < #[trigger] subs[q] < s && (subs[q] & (s as usize))
                == subs[q],
        forall|j: int|
            0 <= j < w && #[trigger] row[j] < INFINITY ==> row[j] == 0 && (exists|i: int|
                0 <= i < terms.len() && (#[trigger] terms[i]) == v && j == two_pow(i as nat) as int),
    ensures
        merge_row(row, prow, s, subs, j0).0.len() == w,
        merge_row(row, prow, s, subs, j0).1.len() == w,
        forall|j: int|
            0 <= j < w && #[trigger] merge_row(row, prow, s, subs, j0).0[j] < INFINITY ==> merge_row(
                row,
                prow,
                s,
                subs,
                j0,
            ).0[j] == 0 && (exists|i: int|
                0 <= i < terms.len() && (#[trigger] terms[i]) == v && j == two_pow(i as nat) as int),
    decreases subs.len() - j0,
{
    if 0 <= j0 < subs.len() {
        let t = subs[j0] as int;
        let cand = row[t] + row[s - t];
        if cand < row[s] {
            let cu = cand as usize;
            if cand < INFINITY {
                assert(row[t] < INFINITY);
                assert(row[s - t] < INFINITY);
                let i1 = choose|i: int|
                    0 <= i < terms.len() && (#[trigger] terms[i]) == v && t == two_pow(
                        i as nat,
                    ) as int;
                let i2 = choose|i: int|
                    0 <= i < terms.len() && (#[trigger] terms[i]) == v && s - t == two_pow(
                        i as nat,
                    ) as int;
                if i1 != i2 {
                    assert(terms[i1] != terms[i2]);
                } else {
                    // a nonzero proper submask never equals its own complement
                    let tu = subs[j0];
                    let su = s as usize;
                    assert(su - tu == tu);
                    assert(!((tu & su) == tu && 1 <= tu && tu <= su && su - tu == tu))
                        by (bit_vector);
                }
                assert(false);
            }
            let row2 = row.update(s, cu);
            let prow2 = prow.update(s, PreEntry::Merge(subs[j0]));
            assert forall|j: int|
                0 <= j < w && #[trigger] row2[j] < INFINITY implies row2[j] == 0 && (exists|i: int|
                0 <= i < terms.len() && terms[i] == v && j == #[trigger] two_pow(
                    i as nat,
                ) as int) by {
                if j != s {
                    assert(row2[j] == row[j]);
                } else {
                    assert(row2[s] == cu);
                }
            }
            lemma_merge_row_sparse(row2, prow2, v, s, subs, j0 + 1, terms, w);
        } else {
            lemma_merge_row_sparse(row, prow, v, s, subs, j0 + 1, terms, w);
        }
    }
}

proof fn lemma_merge_grid_sparse(
    dp: Seq<Seq<usize>>,
    pre: Seq<Seq<PreEntry>>,
    s: int,
    subs: Seq<usize>,
    i0: int,
    terms: Seq<usize>,
    n: int,
    w: int,
)
    requires
        dims_ok(dp, pre, n, w),
        sparse_inv(dp, terms, w),
        1 <= s < w,
        w <= usize::MAX,
        distinct_terminals(terms),
        forall|q: int|
            0 <= q < subs.len() ==> 0 < #[trigger] subs[q] < s && (subs[q] & (s as usize))
                == subs[q],
    ensures
        dims_ok(merge_grid(dp, pre, s, subs, i0).0, merge_grid(dp, pre, s, subs, i0).1, n, w),
        sparse_inv(merge_grid(dp, pre, s, subs, i0).0, terms, w),
    decreases dp.len() - i0,
{
    if 0 <= i0 < dp.len() {
        assert forall|j: int|
            0 <= j < w && #[trigger] dp[i0][j] < INFINITY implies dp[i0][j] == 0 && (exists|i: int|
            0 <= i < terms.len() && (#[trigger] terms[i]) == i0 && j == two_pow(i as nat) as int) by {
            assert(dp[i0][j] < INFINITY && 0 <= i0 < dp.len());
        }
        lemma_merge_row_sparse(dp[i0], pre[i0], i0, s, subs, 0, terms, w);
        let (r2, p2) = merge_row(dp[i0], pre[i0], s, subs, 0);
        let d2 = dp.update(i0, r2);
        let pr2 = pre.update(i0, p2);
        assert forall|a: int| 0 <= a < n implies (#[trigger] d2[a]).len() == w by {
            if a != i0 {
                assert(dp[a].len() == w);
            }
        }
        assert forall|a: int| 0 <= a < n implies (#[trigger] pr2[a]).len() == w by {
            if a != i0 {
                assert(pre[a].len() == w);
            }
        }
        assert forall|v2: int, j2: int|
            0 <= v2 < d2.len() && 0 <= j2 < w && #[trigger] d2[v2][j2] < INFINITY implies d2[v2][j2]
            == 0 && (exists|i: int|
            0 <= i < terms.len() && (#[trigger] terms[i]) == v2 && j2 == two_pow(i as nat) as int) by {
            if v2 != i0 {
                assert(d2[v2][j2] == dp[v2][j2]);
            } else {
                assert(d2[i0] == r2);
            }
        }
        lemma_merge_grid_sparse(d2, pr2, s, subs, i0 + 1, terms, n, w);
    }
}

/// With no edges, a relaxation pass is the identity.
proof fn lemma_relax_rounds_empty(
    dp: Seq<Seq<usize>>,
    pre: Seq<Seq<PreEntry>>,
    edges: Seq<(usize, usize)>,
    s: int,
    rounds: int,
)
    requires
        edges.len() == 0,
    ensures
        relax_rounds(dp, pre, edges, s, rounds) == (dp, pre),
    decreases rounds,
{
    if rounds > 0 {
        lemma_relax_rounds_empty(dp, pre, edges, s, rounds - 1);
    }
}

proof fn lemma_no_edges_main(m: M)
    requires
        m.phase is MainLoop,
        m.phase matches Phase::MainLoop { loop_index } ==> loop_index >= 1,
        m.edges.len() == 0,
        input_valid(m.n, m.edges, m.terms),
        !too_large(m.n, m.terms.len()),
        distinct_terminals(m.terms),
        m.terms.len() >= 2,
        dims_ok(m.dp, m.pre, m.n as int, two_pow(m.terms.len()) as int),
        sparse_inv(m.dp, m.terms, two_pow(m.terms.len()) as int),
    ensures
        run(m) == StepRes::Failed(ErrorSpec::TerminalNotConnected),
    decreases steps_left(m),
{
    let k = m.terms.len();
    let w = two_pow(k) as int;
    let full = w - 1;
    lemma_two_pow_mono(k, 29);
    lemma_two_pow_29();
    if let Phase::MainLoop { loop_index } = m.phase {
        let li = loop_index as int;
        if li < w {
            let s = loop_index;
            lemma_submask_list_props(s, 1);
            lemma_merge_grid_sparse(
                m.dp,
                m.pre,
                li,
                submask_list(s, 1),
                0,
                m.terms,
                m.n as int,
                w,
            );
            let (d1, p1) = merge_grid(m.dp, m.pre, li, submask_list(s, 1), 0);
            lemma_relax_rounds_empty(d1, p1, m.edges, li, m.n as int);
            if li + 1 < w {
                let m2 = step(m).0;
                assert(step(m).1 is Yielding);
                lemma_step_yield_decreases(m);
                lemma_no_edges_main(m2);
            } else {
                lemma_finalize_sparse(d1, p1, m.terms, m.n as int, w);
                assert(run(m) == step(m).1);
            }
        } else {
            lemma_finalize_sparse(m.dp, m.pre, m.terms, m.n as int, w);
            assert(run(m) == step(m).1);
        }
    }
}

/// On sparse tables with at least two terminals, the best-root scan finds
/// nothing: the full mask is no singleton.
proof fn lemma_finalize_sparse(
    dp: Seq<Seq<usize>>,
    pre: Seq<Seq<PreEntry>>,
    terms: Seq<usize>,
    n: int,
    w: int,
)
    requires
        dp.len() == n,
        n <= usize::MAX,
        terms.len() >= 2,
        w == two_pow(terms.len()) as int,
        sparse_inv(dp, terms, w),
    ensures
        crate::model::finalize_tab(dp, pre, w) == StepRes::Failed(ErrorSpec::TerminalNotConnected),
{
    let full = w - 1;
    lemma_two_pow_pos(terms.len());
    assert forall|v: int| 0 <= v < n implies #[trigger] dp[v][full] >= INFINITY by {
        if dp[v][full] < INFINITY {
            let i = choose|i: int|
                0 <= i < terms.len() && terms[i] == v && full == two_pow(i as nat) as int;
            lemma_singleton_ne_full(i as nat, terms.len());
        }
    }
    lemma_best_pair_props(dp, full, 0, (INFINITY, 0usize));
    let best = best_pair(dp, full, 0, (INFINITY, 0usize));
    if best.0 < INFINITY {
        assert(dp[best.1 as int][full] == best.0);
    }
}

/// With no edges and at least two distinct terminals, the terminals cannot
/// be connected: the run always reports `TerminalNotConnected`. (With a
/// repeated terminal the engine can still succeed at cost zero, so the law
/// asks for distinct terminals.)
pub proof fn lemma_no_edges_not_connected(n: usize, edges: Seq<(usize, usize)>, terms: Seq<usize>)
    requires
        edges.len() == 0,
        terms.len() >= 2,
        distinct_terminals(terms),
        input_valid(n, edges, terms),
        !too_large(n, terms.len()),
    ensures
        run(init_model(n, edges, terms)) == StepRes::Failed(ErrorSpec::TerminalNotConnected),
{
    let m0 = init_model(n, edges, terms);
    let k = terms.len();
    let w = two_pow(k) as int;
    lemma_two_pow_pos(k);

    let m1 = step(m0).0;
    lemma_fresh_tables(n as int, w);
    assert(step(m0).1 is Yielding);
    assert(run(m0) == run(m1));
    let d1 = grid_of::<usize>(n as int, w, INFINITY);
    let p1 = grid_of::<PreEntry>(n as int, w, PreEntry::Unreached);
    assert(dims_ok(d1, p1, n as int, w));
    assert(sparse_inv(d1, terms, w)) by {
        assert forall|v: int, j: int|
            0 <= v < d1.len() && 0 <= j < w implies !(#[trigger] d1[v][j] < INFINITY) by {
            assert(d1[v][j] == INFINITY);
        }
    }

    let m2 = step(m1).0;
    assert(step(m1).1 is Yielding);
    assert(run(m1) == run(m2));
    assert forall|i: int|
        0 <= i < terms.len() implies ((#[trigger] terms[i]) as int) < n && two_pow(i as nat)
        < w by {
        assert(terms[i] < n);
        lemma_two_pow_strict_mono(i as nat, k);
    }
    lemma_seed_sparse(d1, p1, terms, 0, n as int, w);

    lemma_no_edges_main(m2);
}

} // verus!
