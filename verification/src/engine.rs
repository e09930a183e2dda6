//! The resumable algorithm engine: one bounded work unit per invocation,
//! proved to follow the mathematical model in `model` exactly.

use vstd::prelude::*;
use crate::error::Error;
use crate::model::{
    best_pair, cell_wf, col_zero_unreached, edges_valid, finalize_tab, grid_of, grid_view,
    init_model, lemma_best_pair_props, lemma_fresh_tables, lemma_merge_write_wf,
    lemma_relax_write_wf, lemma_seed_write_wf, lemma_step_yield_decreases, lemma_two_pow_29,
    lemma_two_pow_mono, lemma_two_pow_pos, mask_inv, merge_grid, merge_row, rebuild, relax_one,
    relax_pass, relax_rounds, row_width, run, seed_step, step, steps_left, tables_wf, terms_valid,
    two_pow, unprocessed_from, upd2, Phase, PreEntry, StepRes, INFINITY, MAX_TABLE_CELLS,
    MAX_TERMINALS,
};
use crate::state::State;
use crate::subsets::subsets;

verus! {

/// Outcome of one work unit.
#[derive(Debug)]
pub enum Ret {
    /// The computation finished: optimal cost and one optimal edge set.
    Solved(usize, Vec<(usize, usize)>),
    /// The computation finished with a terminal error.
    Failed(Error),
    /// One work unit was performed; the caller should invoke the engine
    /// again (immediately or after suspending) to continue.
    Yielding,
}

impl View for Ret {
    type V = StepRes;

    open spec fn view(&self) -> StepRes {
        match self {
            Ret::Solved(cost, edges) => StepRes::Done(*cost, edges@),
            Ret::Failed(e) => StepRes::Failed(e@),
            Ret::Yielding => StepRes::Yielding,
        }
    }
}

/// `2^k` as a machine integer, by repeated doubling.
fn two_pow_exec(k: usize) -> (r: usize)
    requires
        k < 30,
    ensures
        r == two_pow(k as nat),
{
    proof {
        lemma_two_pow_mono(k as nat, 29);
        lemma_two_pow_29();
    }
    let mut r: usize = 1;
    let mut i: usize = 0;
    while i < k
        invariant
            i <= k,
            k < 30,
            r == two_pow(i as nat),
            two_pow(k as nat) <= 0x2000_0000,
        decreases k - i,
    {
        proof {
            lemma_two_pow_mono((i + 1) as nat, k as nat);
        }
        r = r * 2;
        i = i + 1;
    }
    r
}

/// Write one table cell.
fn set_cell<T>(g: &mut Vec<Vec<T>>, i: usize, j: usize, x: T)
    requires
        (i as int) < old(g)@.len(),
        (j as int) < old(g)@[i as int]@.len(),
    ensures
        grid_view(*final(g)) == upd2(grid_view(*old(g)), i as int, j as int, x),
        final(g)@.len() == old(g)@.len(),
{
    g[i][j] = x;
    proof {
        assert(grid_view(*g) =~= upd2(grid_view(*old(g)), i as int, j as int, x));
    }
}

/// An `n` by `w` table filled with one value.
fn build_grid<T: Copy>(n: usize, w: usize, x: T) -> (g: Vec<Vec<T>>)
    ensures
        grid_view(g) == grid_of(n as int, w as int, x),
{
    let mut g: Vec<Vec<T>> = Vec::new();
    let mut i: usize = 0;
    while i < n
        invariant
            i <= n,
            g@.len() == i,
            forall|a: int| 0 <= a < i ==> (#[trigger] g@[a])@ == Seq::new(w as nat, |q: int| x),
        decreases n - i,
    {
        let mut row: Vec<T> = Vec::new();
        let mut j: usize = 0;
        while j < w
            invariant
                j <= w,
                row@.len() == j,
                forall|q: int| 0 <= q < j ==> #[trigger] row@[q] == x,
            decreases w - j,
        {
            row.push(x);
            j = j + 1;
        }
        proof {
            assert(row@ =~= Seq::new(w as nat, |q: int| x));
        }
        g.push(row);
        i = i + 1;
    }
    proof {
        assert(grid_view(g) =~= grid_of(n as int, w as int, x));
    }
    g
}

/// A plain copy of an edge list.
fn copy_pairs(v: &Vec<(usize, usize)>) -> (r: Vec<(usize, usize)>)
    ensures
        r@ == v@,
{
    let mut r: Vec<(usize, usize)> = Vec::new();
    let mut i: usize = 0;
    while i < v.len()
        invariant
            i <= v@.len(),
            r@.len() == i,
            forall|q: int| 0 <= q < i ==> #[trigger] r@[q] == v@[q],
        decreases v@.len() - i,
    {
        let e = v[i];
        r.push(e);
        i = i + 1;
    }
    proof {
        assert(r@ =~= v@);
    }
    r
}

/// A plain copy of an index list.
fn copy_indices(v: &Vec<usize>) -> (r: Vec<usize>)
    ensures
        r@ == v@,
{
    let mut r: Vec<usize> = Vec::new();
    let mut i: usize = 0;
    while i < v.len()
        invariant
            i <= v@.len(),
            r@.len() == i,
            forall|q: int| 0 <= q < i ==> #[trigger] r@[q] == v@[q],
        decreases v@.len() - i,
    {
        let e = v[i];
        r.push(e);
        i = i + 1;
    }
    proof {
        assert(r@ =~= v@);
    }
    r
}

/// Scan column `full` for the least cost and the first vertex attaining it.
fn best_scan(dp: &Vec<Vec<usize>>, full: usize, n: usize) -> (r: (usize, usize))
    requires
        grid_view(*dp).len() == n,
        forall|i: int| 0 <= i < n ==> (full as int) < (#[trigger] grid_view(*dp)[i]).len(),
    ensures
        r == best_pair(grid_view(*dp), full as int, 0, (INFINITY, 0)),
{
    let ghost g = grid_view(*dp);
    let mut bc: usize = INFINITY;
    let mut bv: usize = 0;
    let mut i: usize = 0;
    while i < n
        invariant
            i <= n,
            grid_view(*dp) == g,
            g.len() == n,
            forall|a: int| 0 <= a < n ==> (full as int) < (#[trigger] g[a]).len(),
            best_pair(g, full as int, 0, (INFINITY, 0)) == best_pair(
                g,
                full as int,
                i as int,
                (bc, bv),
            ),
        decreases n - i,
    {
        let c = dp[i][full];
        if c < bc {
            bc = c;
            bv = i;
        }
        i = i + 1;
    }
    (bc, bv)
}

/// Depth-first unwinding of the predecessor table from cell `(v, s)`,
/// appending the reconstructed edges to `out`. A merge record expands into
/// its submask branch and then the complement branch; a relax record appends
/// the traversed edge and continues at the neighbour.
fn rebuild_edges(
    dp: &Vec<Vec<usize>>,
    pre: &Vec<Vec<PreEntry>>,
    v: usize,
    s: usize,
    out: &mut Vec<(usize, usize)>,
)
    requires
        tables_wf(grid_view(*dp), grid_view(*pre), row_width(grid_view(*dp))),
        (v as int) < grid_view(*dp).len(),
        1 <= s < row_width(grid_view(*dp)),
        grid_view(*dp)[v as int][s as int] < INFINITY,
    ensures
        final(out)@ == old(out)@ + rebuild(grid_view(*dp), grid_view(*pre), v as int, s as int),
    decreases s, grid_view(*dp)[v as int][s as int],
{
    let ghost gd = grid_view(*dp);
    let ghost gp = grid_view(*pre);
    proof {
        assert(cell_wf(gd, gp, v as int, s as int));
    }
    let entry = pre[v][s];
    match entry {
        PreEntry::Unreached => {
            proof {
                assert(false);
            }
        },
        PreEntry::Seed => {
            proof {
                assert(out@ + rebuild(gd, gp, v as int, s as int) =~= out@);
            }
        },
        PreEntry::Merge(t) => {
            let ghost out0 = out@;
            proof {
                assert(cell_wf(gd, gp, v as int, t as int));
                assert(cell_wf(gd, gp, v as int, s - t));
            }
            rebuild_edges(dp, pre, v, t, out);
            rebuild_edges(dp, pre, v, s - t, out);
            proof {
                assert(out@ =~= out0 + rebuild(gd, gp, v as int, s as int));
            }
        },
        PreEntry::Relax(x) => {
            let ghost out0 = out@;
            proof {
                assert(cell_wf(gd, gp, x as int, s as int));
            }
            out.push((x, v));
            rebuild_edges(dp, pre, x, s, out);
            proof {
                assert(out@ =~= out0 + rebuild(gd, gp, v as int, s as int));
            }
        },
    }
}

/// The seeding work unit: each terminal's singleton state gets cost zero.
fn seed_tables(dp: &mut Vec<Vec<usize>>, pre: &mut Vec<Vec<PreEntry>>, terms: &Vec<usize>, n: usize, w: usize)
    requires
        grid_view(*old(dp)).len() == n,
        tables_wf(grid_view(*old(dp)), grid_view(*old(pre)), w as int),
        unprocessed_from(grid_view(*old(pre)), 0, w as int),
        col_zero_unreached(grid_view(*old(pre))),
        terms_valid(n, terms@),
        terms@.len() < 30,
        w == two_pow(terms@.len() as nat),
    ensures
        grid_view(*final(dp)) == seed_step(
            grid_view(*old(dp)),
            grid_view(*old(pre)),
            terms@,
            0,
        ).0,
        grid_view(*final(pre)) == seed_step(
            grid_view(*old(dp)),
            grid_view(*old(pre)),
            terms@,
            0,
        ).1,
        tables_wf(grid_view(*final(dp)), grid_view(*final(pre)), w as int),
        unprocessed_from(grid_view(*final(pre)), 0, w as int),
        col_zero_unreached(grid_view(*final(pre))),
        grid_view(*final(dp)).len() == n,
{
    let ghost gd0 = grid_view(*old(dp));
    let ghost gp0 = grid_view(*old(pre));
    let k = terms.len();
    let mut i: usize = 0;
    let mut mask: usize = 1;
    while i < k
        invariant
            i <= k,
            k < 30,
            k == terms@.len(),
            mask == two_pow(i as nat),
            w == two_pow(k as nat),
            terms_valid(n, terms@),
            grid_view(*dp).len() == n,
            tables_wf(grid_view(*dp), grid_view(*pre), w as int),
            unprocessed_from(grid_view(*pre), 0, w as int),
            col_zero_unreached(grid_view(*pre)),
            seed_step(gd0, gp0, terms@, 0) == seed_step(
                grid_view(*dp),
                grid_view(*pre),
                terms@,
                i as int,
            ),
        decreases k - i,
    {
        proof {
            lemma_two_pow_pos(i as nat);
            lemma_two_pow_mono((i + 1) as nat, k as nat);
            assert(2 * mask <= w);
        }
        let v = terms[i];
        proof {
            assert(terms@[i as int] < n);
            assert(grid_view(*dp)[v as int].len() == w);
            assert(grid_view(*pre)[v as int].len() == w);
            assert(grid_view(*dp)[v as int] == dp@[v as int]@);
            assert(grid_view(*pre)[v as int] == pre@[v as int]@);
        }
        let ghost gd1 = grid_view(*dp);
        let ghost gp1 = grid_view(*pre);
        set_cell(dp, v, mask, 0);
        set_cell(pre, v, mask, PreEntry::Seed);
        proof {
            lemma_seed_write_wf(gd1, gp1, w as int, v as int, mask as int);
            assert(seed_step(gd1, gp1, terms@, i as int) == seed_step(
                grid_view(*dp),
                grid_view(*pre),
                terms@,
                i as int + 1,
            ));
        }
        mask = mask * 2;
        i = i + 1;
    }
}

/// The merge step of one main-loop work unit: for every vertex, lower the
/// cost at mask `s` by combining each proper submask with its complement.
fn merge_mask(
    dp: &mut Vec<Vec<usize>>,
    pre: &mut Vec<Vec<PreEntry>>,
    s: usize,
    subs: &Vec<usize>,
    n: usize,
    w: usize,
)
    requires
        grid_view(*old(dp)).len() == n,
        mask_inv(grid_view(*old(dp)), grid_view(*old(pre)), w as int, s as int),
        1 <= s < w,
        forall|q: int|
            0 <= q < subs@.len() ==> 0 < #[trigger] subs@[q] < s && (subs@[q] & s) == subs@[q],
    ensures
        grid_view(*final(dp)) == merge_grid(
            grid_view(*old(dp)),
            grid_view(*old(pre)),
            s as int,
            subs@,
            0,
        ).0,
        grid_view(*final(pre)) == merge_grid(
            grid_view(*old(dp)),
            grid_view(*old(pre)),
            s as int,
            subs@,
            0,
        ).1,
        mask_inv(grid_view(*final(dp)), grid_view(*final(pre)), w as int, s as int),
        grid_view(*final(dp)).len() == n,
{
    let ghost gd0 = grid_view(*old(dp));
    let ghost gp0 = grid_view(*old(pre));
    let mut i: usize = 0;
    while i < n
        invariant
            i <= n,
            n == grid_view(*dp).len(),
            mask_inv(grid_view(*dp), grid_view(*pre), w as int, s as int),
            1 <= s < w,
            forall|q: int|
                0 <= q < subs@.len() ==> 0 < #[trigger] subs@[q] < s && (subs@[q] & s) == subs@[q],
            merge_grid(gd0, gp0, s as int, subs@, 0) == merge_grid(
                grid_view(*dp),
                grid_view(*pre),
                s as int,
                subs@,
                i as int,
            ),
        decreases n - i,
    {
        let ghost gd_e = grid_view(*dp);
        let ghost gp_e = grid_view(*pre);
        proof {
            assert(gd_e.update(i as int, gd_e[i as int]) =~= gd_e);
            assert(gp_e.update(i as int, gp_e[i as int]) =~= gp_e);
        }
        let m = subs.len();
        let mut j: usize = 0;
        while j < m
            invariant
                j <= m,
                m == subs@.len(),
                i < n,
                n == grid_view(*dp).len(),
                gd_e.len() == n,
                gp_e.len() == n,
                1 <= s < w,
                forall|q: int|
                    0 <= q < subs@.len() ==> 0 < #[trigger] subs@[q] < s && (subs@[q] & s)
                        == subs@[q],
                mask_inv(grid_view(*dp), grid_view(*pre), w as int, s as int),
                grid_view(*dp) == gd_e.update(i as int, grid_view(*dp)[i as int]),
                grid_view(*pre) == gp_e.update(i as int, grid_view(*pre)[i as int]),
                merge_row(gd_e[i as int], gp_e[i as int], s as int, subs@, 0) == merge_row(
                    grid_view(*dp)[i as int],
                    grid_view(*pre)[i as int],
                    s as int,
                    subs@,
                    j as int,
                ),
                merge_grid(gd0, gp0, s as int, subs@, 0) == merge_grid(
                    gd_e,
                    gp_e,
                    s as int,
                    subs@,
                    i as int,
                ),
            decreases m - j,
        {
            let ghost gd1 = grid_view(*dp);
            let ghost gp1 = grid_view(*pre);
            let t = subs[j];
            proof {
                assert(0 < subs@[j as int] < s && (subs@[j as int] & s) == subs@[j as int]);
                assert(gd1[i as int].len() == w);
                assert(cell_wf(gd1, gp1, i as int, t as int));
                assert(cell_wf(gd1, gp1, i as int, s - t));
                assert(cell_wf(gd1, gp1, i as int, s as int));
                assert(gd1[i as int] == dp@[i as int]@);
            }
            let a = dp[i][t];
            let b = dp[i][s - t];
            let cur = dp[i][s];
            if a + b < cur {
                set_cell(dp, i, s, a + b);
                set_cell(pre, i, s, PreEntry::Merge(t));
                proof {
                    lemma_merge_write_wf(gd1, gp1, w as int, s as int, i as int, t);
                    assert(grid_view(*dp) == upd2(gd1, i as int, s as int, (a + b) as usize));
                    assert(grid_view(*dp)[i as int] =~= gd1[i as int].update(
                        s as int,
                        (a + b) as usize,
                    ));
                    assert(grid_view(*pre)[i as int] =~= gp1[i as int].update(
                        s as int,
                        PreEntry::Merge(t),
                    ));
                    assert(merge_row(gd1[i as int], gp1[i as int], s as int, subs@, j as int)
                        == merge_row(
                        grid_view(*dp)[i as int],
                        grid_view(*pre)[i as int],
                        s as int,
                        subs@,
                        j as int + 1,
                    ));
                    let gdn = grid_view(*dp);
                    let gpn = grid_view(*pre);
                    assert(gd1.len() == n);
                    assert(gp1.len() == gd1.len());
                    assert(gd1 == gd_e.update(i as int, gd1[i as int]));
                    assert(gp1 == gp_e.update(i as int, gp1[i as int]));
                    assert(gdn.len() == n);
                    assert(gd_e.len() == n);
                    assert(gp_e.len() == n);
                    assert(gpn.len() == n);
                    assert forall|a2: int|
                        0 <= a2 < n implies gdn[a2] == gd_e.update(i as int, gdn[i as int])[a2] by {
                        if a2 != i as int {
                            assert(gdn[a2] == gd1[a2]);
                            assert(gd1[a2] == gd_e[a2]);
                        }
                    }
                    assert forall|a2: int|
                        0 <= a2 < n implies gpn[a2] == gp_e.update(i as int, gpn[i as int])[a2] by {
                        if a2 != i as int {
                            assert(gpn[a2] == gp1[a2]);
                            assert(gp1[a2] == gp_e[a2]);
                        }
                    }
                    assert(gdn =~= gd_e.update(i as int, gdn[i as int]));
                    assert(gpn =~= gp_e.update(i as int, gpn[i as int]));
                }
            } else {
                proof {
                    assert(merge_row(gd1[i as int], gp1[i as int], s as int, subs@, j as int)
                        == merge_row(gd1[i as int], gp1[i as int], s as int, subs@, j as int + 1));
                }
            }
            j = j + 1;
        }
        proof {
            let r2 = merge_row(gd_e[i as int], gp_e[i as int], s as int, subs@, 0);
            assert(r2 == (grid_view(*dp)[i as int], grid_view(*pre)[i as int]));
            assert(merge_grid(gd_e, gp_e, s as int, subs@, i as int) == merge_grid(
                gd_e.update(i as int, r2.0),
                gp_e.update(i as int, r2.1),
                s as int,
                subs@,
                i as int + 1,
            ));
        }
        i = i + 1;
    }
}

/// The propagation step of one main-loop work unit: rounds of unit-weight
/// relaxation over all edges, in both directions, within column `s`.
fn relax_mask(
    dp: &mut Vec<Vec<usize>>,
    pre: &mut Vec<Vec<PreEntry>>,
    edges: &Vec<(usize, usize)>,
    s: usize,
    n: usize,
    w: usize,
)
    requires
        grid_view(*old(dp)).len() == n,
        mask_inv(grid_view(*old(dp)), grid_view(*old(pre)), w as int, s as int),
        1 <= s < w,
        edges_valid(n, edges@),
    ensures
        grid_view(*final(dp)) == relax_rounds(
            grid_view(*old(dp)),
            grid_view(*old(pre)),
            edges@,
            s as int,
            n as int,
        ).0,
        grid_view(*final(pre)) == relax_rounds(
            grid_view(*old(dp)),
            grid_view(*old(pre)),
            edges@,
            s as int,
            n as int,
        ).1,
        mask_inv(grid_view(*final(dp)), grid_view(*final(pre)), w as int, s as int),
        grid_view(*final(dp)).len() == n,
{
    let ghost gd0 = grid_view(*old(dp));
    let ghost gp0 = grid_view(*old(pre));
    let mut r: usize = 0;
    while r < n
        invariant
            r <= n,
            n == grid_view(*dp).len(),
            mask_inv(grid_view(*dp), grid_view(*pre), w as int, s as int),
            1 <= s < w,
            edges_valid(n, edges@),
            grid_view(*dp) == relax_rounds(gd0, gp0, edges@, s as int, r as int).0,
            grid_view(*pre) == relax_rounds(gd0, gp0, edges@, s as int, r as int).1,
        decreases n - r,
    {
        let ghost gd_e = grid_view(*dp);
        let ghost gp_e = grid_view(*pre);
        let m = edges.len();
        let mut j: usize = 0;
        while j < m
            invariant
                j <= m,
                m == edges@.len(),
                n == grid_view(*dp).len(),
                1 <= s < w,
                edges_valid(n, edges@),
                mask_inv(grid_view(*dp), grid_view(*pre), w as int, s as int),
                relax_pass(gd_e, gp_e, edges@, s as int, 0) == relax_pass(
                    grid_view(*dp),
                    grid_view(*pre),
                    edges@,
                    s as int,
                    j as int,
                ),
                gd_e == relax_rounds(gd0, gp0, edges@, s as int, r as int).0,
                gp_e == relax_rounds(gd0, gp0, edges@, s as int, r as int).1,
            decreases m - j,
        {
            let e = edges[j];
            let x = e.0;
            let y = e.1;
            proof {
                assert((edges@[j as int]).0 < n && (edges@[j as int]).1 < n);
            }
            let ghost gd1 = grid_view(*dp);
            let ghost gp1 = grid_view(*pre);
            proof {
                assert(cell_wf(gd1, gp1, x as int, s as int));
                assert(cell_wf(gd1, gp1, y as int, s as int));
                assert(gd1[x as int] == dp@[x as int]@);
                assert(gd1[y as int] == dp@[y as int]@);
            }
            let cx = dp[x][s];
            let cy = dp[y][s];
            if cx + 1 < cy {
                set_cell(dp, y, s, cx + 1);
                set_cell(pre, y, s, PreEntry::Relax(x));
                proof {
                    lemma_relax_write_wf(gd1, gp1, w as int, s as int, x, y);
                }
            }
            proof {
                assert((grid_view(*dp), grid_view(*pre)) == relax_one(gd1, gp1, s as int, x, y));
            }
            let ghost gd2 = grid_view(*dp);
            let ghost gp2 = grid_view(*pre);
            proof {
                assert(cell_wf(gd2, gp2, x as int, s as int));
                assert(cell_wf(gd2, gp2, y as int, s as int));
                assert(gd2[x as int] == dp@[x as int]@);
                assert(gd2[y as int] == dp@[y as int]@);
            }
            let cy2 = dp[y][s];
            let cx2 = dp[x][s];
            if cy2 + 1 < cx2 {
                set_cell(dp, x, s, cy2 + 1);
                set_cell(pre, x, s, PreEntry::Relax(y));
                proof {
                    lemma_relax_write_wf(gd2, gp2, w as int, s as int, y, x);
                }
            }
            proof {
                assert((grid_view(*dp), grid_view(*pre)) == relax_one(gd2, gp2, s as int, y, x));
                assert(relax_pass(gd1, gp1, edges@, s as int, j as int) == relax_pass(
                    grid_view(*dp),
                    grid_view(*pre),
                    edges@,
                    s as int,
                    j as int + 1,
                ));
            }
            j = j + 1;
        }
        proof {
            assert(relax_pass(gd_e, gp_e, edges@, s as int, 0) == (
                grid_view(*dp),
                grid_view(*pre),
            ));
            assert(relax_rounds(gd0, gp0, edges@, s as int, r as int + 1) == relax_pass(
                gd_e,
                gp_e,
                edges@,
                s as int,
                0,
            ));
        }
        r = r + 1;
    }
}

/// The final work unit: find the cheapest root over the full terminal set;
/// if none is reached the terminals are not connected, otherwise reconstruct
/// one optimal edge set.
fn finalize_unit(dp: &Vec<Vec<usize>>, pre: &Vec<Vec<PreEntry>>, n: usize, w: usize) -> (r: Ret)
    requires
        grid_view(*dp).len() == n,
        tables_wf(grid_view(*dp), grid_view(*pre), w as int),
        col_zero_unreached(grid_view(*pre)),
        w >= 1,
    ensures
        r@ == finalize_tab(grid_view(*dp), grid_view(*pre), w as int),
{
    let ghost gd = grid_view(*dp);
    let ghost gp = grid_view(*pre);
    let full = w - 1;
    let (bc, bv) = best_scan(dp, full, n);
    proof {
        lemma_best_pair_props(gd, full as int, 0, (INFINITY, 0));
    }
    if bc >= INFINITY {
        Ret::Failed(Error::TerminalNotConnected)
    } else {
        proof {
            assert(gd[bv as int][full as int] == bc);
            if full == 0 {
                assert(cell_wf(gd, gp, bv as int, 0));
                assert(false);
            }
            assert(row_width(gd) == w);
        }
        let mut out: Vec<(usize, usize)> = Vec::new();
        rebuild_edges(dp, pre, bv, full, &mut out);
        proof {
            assert(out@ =~= rebuild(gd, gp, bv as int, full as int));
        }
        Ret::Solved(bc, out)
    }
}

/// Performs exactly one work unit on `state`: the size check, the recorded
/// validation outcome, then one allocation, one seeding pass, one
/// subset-mask iteration of the main loop, or the final extraction. Returns
/// `Yielding` unless the computation completed; the caller may call again
/// immediately or suspend the state and resume later. The state transition
/// and the result are exactly those of the model's `step` function.
pub fn compute(state: &mut State) -> (r: Ret)
    requires
        old(state).wf(),
    ensures
        final(state).wf(),
        final(state).model() == step(old(state).model()).0,
        r@ == step(old(state).model()).1,
{
    let ghost m0 = old(state).model();
    let k = state.terms.len();
    let n = state.n;
    if k >= MAX_TERMINALS {
        return Ret::Failed(Error::TooLargeInput(n));
    }
    let w = two_pow_exec(k);
    proof {
        lemma_two_pow_pos(k as nat);
        lemma_two_pow_mono(k as nat, 29);
        lemma_two_pow_29();
    }
    if n >= MAX_TABLE_CELLS {
        proof {
            assert(n * two_pow(k as nat) >= n) by (nonlinear_arith)
                requires
                    two_pow(k as nat) >= 1,
            ;
        }
        return Ret::Failed(Error::TooLargeInput(n));
    }
    proof {
        assert((n as u64) * (w as u64) < 0x80_0000_0000_0000) by (nonlinear_arith)
            requires
                n < 40_000_000,
                w <= 0x2000_0000,
        ;
    }
    let prod: u64 = (n as u64) * (w as u64);
    if prod >= 40_000_000u64 {
        return Ret::Failed(Error::TooLargeInput(n));
    }
    if !state.args_ok {
        let e = copy_pairs(&state.edges);
        let t = copy_indices(&state.terms);
        return Ret::Failed(Error::InvalidArg(n, e, t));
    }
    let phase = state.phase;
    match phase {
        Phase::Allocate => {
            let dpg = build_grid(n, w, INFINITY);
            let prg = build_grid(n, w, PreEntry::Unreached);
            state.dp = dpg;
            state.pre = prg;
            state.phase = Phase::Seed;
            proof {
                lemma_fresh_tables(n as int, w as int);
                assert(state.model() =~= step(m0).0);
            }
            Ret::Yielding
        },
        Phase::Seed => {
            proof {
                let gp = grid_view(state.pre);
                assert forall|i2: int, j2: int|
                    0 <= i2 < gp.len() && 0 <= j2 < w as int implies ((#[trigger] gp[i2][j2])
                    is Unreached || gp[i2][j2] is Seed) by {
                    assert(gp[i2][j2] is Unreached);
                }
                assert forall|i2: int| 0 <= i2 < gp.len() implies (#[trigger] gp[i2][0])
                    is Unreached by {
                    assert(gp[i2][0] is Unreached);
                }
            }
            seed_tables(&mut state.dp, &mut state.pre, &state.terms, n, w);
            state.phase = Phase::MainLoop { loop_index: 1 };
            proof {
                assert(state.model() =~= step(m0).0);
                let gp = grid_view(state.pre);
                assert forall|i2: int, j2: int|
                    0 <= i2 < gp.len() && 1 <= j2 < w as int implies ((#[trigger] gp[i2][j2])
                    is Unreached || gp[i2][j2] is Seed) by {}
                assert forall|i2: int, j2: int|
                    0 <= i2 < gp.len() && 0 <= j2 < w as int implies match #[trigger] gp[i2][j2] {
                    PreEntry::Relax(x) => crate::model::edge_in(state.edges@, x, i2 as usize),
                    _ => true,
                } by {
                    assert(gp[i2][j2] is Unreached || gp[i2][j2] is Seed);
                }
            }
            Ret::Yielding
        },
        Phase::MainLoop { loop_index } => {
            if loop_index < w {
                proof {
                    let gp = grid_view(state.pre);
                    assert forall|i2: int, j2: int|
                        0 <= i2 < gp.len() && loop_index as int + 1 <= j2
                            < w as int implies ((#[trigger] gp[i2][j2]) is Unreached || gp[i2][j2]
                        is Seed) by {}
                }
                let subs = subsets(loop_index);
                let ghost gd_in = grid_view(state.dp);
                let ghost gp_in = grid_view(state.pre);
                merge_mask(&mut state.dp, &mut state.pre, loop_index, &subs, n, w);
                proof {
                    crate::model::lemma_merge_grid_graph(
                        gd_in,
                        gp_in,
                        loop_index as int,
                        subs@,
                        0,
                        state.edges@,
                        w as int,
                    );
                }
                let ghost gd_mid = grid_view(state.dp);
                let ghost gp_mid = grid_view(state.pre);
                relax_mask(&mut state.dp, &mut state.pre, &state.edges, loop_index, n, w);
                proof {
                    crate::model::lemma_relax_rounds_graph(
                        gd_mid,
                        gp_mid,
                        state.edges@,
                        loop_index as int,
                        n as int,
                        w as int,
                    );
                }
                if loop_index + 1 < w {
                    state.phase = Phase::MainLoop { loop_index: loop_index + 1 };
                    proof {
                        assert(state.model() =~= step(m0).0);
                    }
                    Ret::Yielding
                } else {
                    state.phase = Phase::Finalize;
                    proof {
                        assert(state.model() =~= step(m0).0);
                    }
                    let r = finalize_unit(&state.dp, &state.pre, n, w);
                    r
                }
            } else {
                state.phase = Phase::Finalize;
                proof {
                    assert(state.model() =~= step(m0).0);
                }
                let r = finalize_unit(&state.dp, &state.pre, n, w);
                r
            }
        },
        Phase::Finalize => {
            let r = finalize_unit(&state.dp, &state.pre, n, w);
            proof {
                assert(state.model() =~= step(m0).0);
            }
            r
        },
    }
}

/// The non-suspending variant: drives `compute` to completion without ever
/// yielding control to the caller. The outcome is exactly the model's `run`
/// on the fresh engine state, so it coincides with what any sequence of
/// suspended and resumed work units produces.
#[verifier::loop_isolation(false)]
pub fn compute_blocking(n: usize, edges: Vec<(usize, usize)>, terms: Vec<usize>) -> (r: Result<
    (usize, Vec<(usize, usize)>),
    Error,
>)
    ensures
        match r {
            Result::Ok(pair) => run(init_model(n, edges@, terms@)) == StepRes::Done(
                pair.0,
                pair.1@,
            ),
            Result::Err(e) => run(init_model(n, edges@, terms@)) == StepRes::Failed(e@),
        },
{
    let ghost im = init_model(n, edges@, terms@);
    let mut st = State::new(n, edges, terms);
    loop
        invariant
            st.wf(),
            run(st.model()) == run(im),
        decreases steps_left(st.model()),
    {
        let ghost mcur = st.model();
        let res = compute(&mut st);
        match res {
            Ret::Yielding => {
                proof {
                    lemma_step_yield_decreases(mcur);
                    assert(run(mcur) == run(step(mcur).0));
                }
            },
            Ret::Solved(cost, picked) => {
                proof {
                    assert(run(mcur) == step(mcur).1);
                    assert(run(im) == StepRes::Done(cost, picked@));
                }
                return Result::Ok((cost, picked));
            },
            Ret::Failed(e) => {
                proof {
                    assert(run(mcur) == step(mcur).1);
                    assert(run(im) == StepRes::Failed(e@));
                }
                return Result::Err(e);
            },
        }
    }
}

} // verus!
