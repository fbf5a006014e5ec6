use vstd::prelude::*;

use super::cached::{
    bump, bump_neighbors, cached_insert, cached_step, cgrid_rows, check_all, check_one, check_window, CGrid, CState,
};
use crate::life::grid::{
    cell_at, cidx, count_alive, in_grid, is_neighbor, lemma_cidx_bounds, lemma_cidx_inj, lemma_count8,
    lemma_count_alive_bound, lemma_next_cell_single, neighbor_count, neighbor_offset, next_cell, next_rows,
    scan_cells, single_faction, states_valid, window_offset, Rows,
};
use crate::life::pos::Pos;
use crate::life::LifeRule;
use crate::life::{group_cell, Cell};

verus! {

broadcast use group_cell;

/// The cached counts agree with the cells: every cell is of faction 0 and holds the number
/// of its live neighbours.
pub open spec fn counts_consistent(g: CGrid, w: int, h: int) -> bool {
    &&& w >= 0
    &&& h >= 0
    &&& g.len() == w * h
    &&& single_faction(cgrid_rows(g, w, h))
    &&& forall|x: int, y: int|
        in_grid(w, h, x, y) ==> #[trigger] g[cidx(w, x, y)].1 == neighbor_count(cgrid_rows(g, w, h), x, y)
}

/// Index `i` is that of one of the first `k` neighbours of `(qx, qy)` inside the grid.
pub open spec fn first_neighbors(w: int, h: int, qx: int, qy: int, k: nat, i: int) -> bool
    decreases k,
{
    k > 0 && (first_neighbors(w, h, qx, qy, (k - 1) as nat, i) || {
        let d = neighbor_offset(k - 1);
        in_grid(w, h, qx + d.0, qy + d.1) && i == cidx(w, qx + d.0, qy + d.1)
    })
}

/// `g` with `a` added to the counts of the first `k` neighbours of `(qx, qy)`.
pub open spec fn bumped(g: CGrid, w: int, h: int, qx: int, qy: int, a: int, k: nat) -> CGrid {
    Seq::new(
        g.len(),
        |i: int|
            if first_neighbors(w, h, qx, qy, k, i) {
                (g[i].0, (g[i].1 + a) as i8)
            } else {
                g[i]
            },
    )
}

proof fn lemma_offset_facts(j: int)
    requires
        0 <= j < 8,
    ensures
        -1 <= neighbor_offset(j).0 <= 1,
        -1 <= neighbor_offset(j).1 <= 1,
        !(neighbor_offset(j).0 == 0 && neighbor_offset(j).1 == 0),
{
}

proof fn lemma_offset_inj(j: int, k: int)
    requires
        0 <= j < 8,
        0 <= k < 8,
        neighbor_offset(j) == neighbor_offset(k),
    ensures
        j == k,
{
}

/// Every neighbour is reached by one of the eight offsets.
proof fn lemma_offset_of_neighbor(dx: int, dy: int) -> (j: int)
    requires
        -1 <= dx <= 1,
        -1 <= dy <= 1,
        !(dx == 0 && dy == 0),
    ensures
        0 <= j < 8,
        neighbor_offset(j) == (dx, dy),
{
    let a = (dy + 1) * 3 + (dx + 1);
    if a < 4 {
        a
    } else {
        a - 1
    }
}

proof fn lemma_first_neighbors_witness(w: int, h: int, qx: int, qy: int, k: nat, i: int) -> (j: int)
    requires
        first_neighbors(w, h, qx, qy, k, i),
    ensures
        0 <= j < k,
        in_grid(w, h, qx + neighbor_offset(j).0, qy + neighbor_offset(j).1),
        i == cidx(w, qx + neighbor_offset(j).0, qy + neighbor_offset(j).1),
    decreases k,
{
    if first_neighbors(w, h, qx, qy, (k - 1) as nat, i) {
        lemma_first_neighbors_witness(w, h, qx, qy, (k - 1) as nat, i)
    } else {
        k - 1
    }
}

proof fn lemma_first_neighbors_intro(w: int, h: int, qx: int, qy: int, k: nat, j: int)
    requires
        0 <= j < k,
        in_grid(w, h, qx + neighbor_offset(j).0, qy + neighbor_offset(j).1),
    ensures
        first_neighbors(w, h, qx, qy, k, cidx(w, qx + neighbor_offset(j).0, qy + neighbor_offset(j).1)),
    decreases k,
{
    if j < k - 1 {
        lemma_first_neighbors_intro(w, h, qx, qy, (k - 1) as nat, j);
    }
}

/// For an in-grid `(px, py)`: its index is among the eight neighbours of `q` exactly when it
/// is a neighbour of `q`.
pub proof fn lemma_first_neighbors_iff(w: int, h: int, qx: int, qy: int, px: int, py: int)
    requires
        in_grid(w, h, px, py),
    ensures
        first_neighbors(w, h, qx, qy, 8, cidx(w, px, py)) <==> is_neighbor(qx, qy, px, py),
{
    if first_neighbors(w, h, qx, qy, 8, cidx(w, px, py)) {
        let j = lemma_first_neighbors_witness(w, h, qx, qy, 8, cidx(w, px, py));
        let d = neighbor_offset(j);
        lemma_cidx_inj(w, px, py, qx + d.0, qy + d.1);
        lemma_offset_facts(j);
    }
    if is_neighbor(qx, qy, px, py) {
        let j = lemma_offset_of_neighbor(px - qx, py - qy);
        lemma_first_neighbors_intro(w, h, qx, qy, 8, j);
    }
}

/// Adding `a` to the counts of the in-grid neighbours of `q`, when none of them overflows and
/// all are of faction 0, gives `bumped`.
pub proof fn lemma_bump_plain(g: CGrid, w: int, h: int, qx: int, qy: int, a: int, k: nat)
    requires
        w >= 0,
        h >= 0,
        g.len() == w * h,
        k <= 8,
        a == 1 || a == -1,
        forall|x: int, y: int|
            in_grid(w, h, x, y) && #[trigger] is_neighbor(qx, qy, x, y) ==> g[cidx(w, x, y)].0.spec_faction() == 0
                && 0 <= g[cidx(w, x, y)].1 + a <= 127,
    ensures
        bump_neighbors(g, w, h, 0, a, qx, qy, k) == Some(bumped(g, w, h, qx, qy, a, k)),
    decreases k,
{
    if k > 0 {
        lemma_bump_plain(g, w, h, qx, qy, a, (k - 1) as nat);
        let g1 = bumped(g, w, h, qx, qy, a, (k - 1) as nat);
        let d = neighbor_offset(k - 1);
        let nx = qx + d.0;
        let ny = qy + d.1;
        lemma_offset_facts(k - 1);
        if in_grid(w, h, nx, ny) {
            let i = cidx(w, nx, ny);
            lemma_cidx_bounds(w, h, nx, ny);
            if first_neighbors(w, h, qx, qy, (k - 1) as nat, i) {
                let j = lemma_first_neighbors_witness(w, h, qx, qy, (k - 1) as nat, i);
                lemma_cidx_inj(w, nx, ny, qx + neighbor_offset(j).0, qy + neighbor_offset(j).1);
                lemma_offset_inj(j, k - 1);
            }
            assert(g1[i] == g[i]);
            assert(is_neighbor(qx, qy, nx, ny));
            assert(bump(g1[i], 0, a) == Some((g[i].0, (g[i].1 + a) as i8)));
            assert(g1.update(i, (g[i].0, (g[i].1 + a) as i8)) =~= bumped(g, w, h, qx, qy, a, k));
        } else {
            assert(g1 =~= bumped(g, w, h, qx, qy, a, k));
        }
    }
}

/// Replacing one cell changes the live-neighbour count of its neighbours by the change in its
/// liveness, and of no other cell.
pub proof fn lemma_count_delta(r: Rows, qx: int, qy: int, c: Cell, px: int, py: int)
    requires
        0 <= qy < r.len(),
        0 <= qx < r[qy].len(),
    ensures
        neighbor_count(r.update(qy, r[qy].update(qx, c)), px, py) == neighbor_count(r, px, py) + if is_neighbor(
            px,
            py,
            qx,
            qy,
        ) {
            (if c.spec_is_alive() { 1int } else { 0int }) - (if r[qy][qx].spec_is_alive() { 1int } else { 0int })
        } else {
            0int
        },
{
    let r2 = r.update(qy, r[qy].update(qx, c));
    lemma_count8(scan_cells(r, px, py));
    lemma_count8(scan_cells(r2, px, py));
}

/// The grid after the cell at `(qx, qy)` is set to `c` and the neighbours' counts adjusted.
pub open spec fn changed(g: CGrid, w: int, h: int, qx: int, qy: int, c: Cell) -> CGrid {
    let i = cidx(w, qx, qy);
    let g1 = g.update(i, (c, g[i].1));
    if c.spec_is_alive() != g[i].0.spec_is_alive() {
        bumped(g1, w, h, qx, qy, if c.spec_is_alive() { 1 } else { -1 }, 8)
    } else {
        g1
    }
}

/// Setting one cell of a consistent grid to a faction-0 cell keeps the counts consistent.
pub proof fn lemma_change_cell(g: CGrid, w: int, h: int, qx: int, qy: int, c: Cell)
    requires
        counts_consistent(g, w, h),
        in_grid(w, h, qx, qy),
        c.spec_faction() == 0,
    ensures
        ({
            let i = cidx(w, qx, qy);
            let g1 = g.update(i, (c, g[i].1));
            let a: int = if c.spec_is_alive() { 1 } else { -1 };
            &&& cgrid_rows(g1, w, h) == cgrid_rows(g, w, h).update(qy, cgrid_rows(g, w, h)[qy].update(qx, c))
            &&& c.spec_is_alive() != g[i].0.spec_is_alive() ==> bump_neighbors(g1, w, h, 0, a, qx, qy, 8) == Some(changed(g, w, h, qx, qy, c))
        }),
        counts_consistent(changed(g, w, h, qx, qy, c), w, h),
        cgrid_rows(changed(g, w, h, qx, qy, c), w, h) == cgrid_rows(g, w, h).update(qy, cgrid_rows(g, w, h)[qy].update(qx, c)),
{
    let i = cidx(w, qx, qy);
    lemma_cidx_bounds(w, h, qx, qy);
    let g1 = g.update(i, (c, g[i].1));
    let r = cgrid_rows(g, w, h);
    let r1 = r.update(qy, r[qy].update(qx, c));
    let a: int = if c.spec_is_alive() { 1 } else { -1 };
    assert(cgrid_rows(g1, w, h) =~~= r1) by {
        assert forall|y: int, x: int| 0 <= y < h && 0 <= x < w implies #[trigger] g1[cidx(w, x, y)].0 == r1[y][x] by {
            lemma_cidx_bounds(w, h, x, y);
            if cidx(w, x, y) == i {
                lemma_cidx_inj(w, x, y, qx, qy);
            }
        }
    }
    assert(r[qy][qx] == g[i].0);
    assert forall|x: int, y: int| in_grid(w, h, x, y) implies neighbor_count(r1, x, y) == neighbor_count(r, x, y) + if is_neighbor(
        x,
        y,
        qx,
        qy,
    ) {
        (if c.spec_is_alive() { 1int } else { 0int }) - (if g[i].0.spec_is_alive() { 1int } else { 0int })
    } else {
        0int
    } by {
        lemma_count_delta(r, qx, qy, c, x, y);
    }
    assert forall|x: int, y: int| in_grid(w, h, x, y) implies #[trigger] g1[cidx(w, x, y)].1 == g[cidx(w, x, y)].1 && (cidx(w, x, y) != i ==> g1[cidx(w, x, y)].0 == g[cidx(w, x, y)].0) by {
        lemma_cidx_bounds(w, h, x, y);
    }
    if c.spec_is_alive() != g[i].0.spec_is_alive() {
        assert forall|x: int, y: int| in_grid(w, h, x, y) && #[trigger] is_neighbor(qx, qy, x, y) implies g1[cidx(w, x, y)].0.spec_faction() == 0
            && 0 <= g1[cidx(w, x, y)].1 + a <= 127 by {
            lemma_cidx_bounds(w, h, x, y);
            if cidx(w, x, y) == i {
                lemma_cidx_inj(w, x, y, qx, qy);
            }
            assert(r[y][x] == g[cidx(w, x, y)].0);
            lemma_count_alive_bound(scan_cells(r1, x, y));
            lemma_count_delta(r, qx, qy, c, x, y);
            assert(g[cidx(w, x, y)].1 == neighbor_count(r, x, y));
            assert(neighbor_count(r1, x, y) <= 8);
        }
        lemma_bump_plain(g1, w, h, qx, qy, a, 8);
        let g2 = bumped(g1, w, h, qx, qy, a, 8);
        assert(cgrid_rows(g2, w, h) =~~= r1) by {
            assert forall|y: int, x: int| 0 <= y < h && 0 <= x < w implies #[trigger] g2[cidx(w, x, y)].0 == r1[y][x] by {
                lemma_cidx_bounds(w, h, x, y);
            }
        }
        assert forall|x: int, y: int| in_grid(w, h, x, y) implies #[trigger] g2[cidx(w, x, y)].1 == neighbor_count(cgrid_rows(g2, w, h), x, y) by {
            lemma_cidx_bounds(w, h, x, y);
            lemma_first_neighbors_iff(w, h, qx, qy, x, y);
            lemma_count_alive_bound(scan_cells(r1, x, y));
        }
    } else {
        assert forall|x: int, y: int| in_grid(w, h, x, y) implies #[trigger] g1[cidx(w, x, y)].1 == neighbor_count(cgrid_rows(g1, w, h), x, y) by {
            lemma_cidx_bounds(w, h, x, y);
        }
    }
}

/// `(x, y)` lies within one cell of one of the positions in `ups`.
pub open spec fn covered_by(ups: Seq<Pos>, x: int, y: int) -> bool
    decreases ups.len(),
{
    ups.len() > 0 && (covered_by(ups.drop_last(), x, y) || (-1 <= x - ups.last().x <= 1 && -1 <= y
        - ups.last().y <= 1))
}

/// Every cell that the next generation would change lies next to a recorded change.
pub open spec fn stable(g: CGrid, ups: Seq<Pos>, w: int, h: int, rule: LifeRule) -> bool {
    forall|x: int, y: int|
        in_grid(w, h, x, y) && #[trigger] next_cell(rule, cgrid_rows(g, w, h), x, y) != cgrid_rows(g, w, h)[y][x]
            ==> covered_by(ups, x, y)
}

pub proof fn lemma_covered_push(ups: Seq<Pos>, p: Pos, x: int, y: int)
    requires
        covered_by(ups, x, y) || (-1 <= x - p.x <= 1 && -1 <= y - p.y <= 1),
    ensures
        covered_by(ups.push(p), x, y),
{
    assert(ups.push(p).drop_last() =~= ups);
}

/// The next value of a cell depends only on the 3 by 3 window around it.
pub proof fn lemma_next_local(rule: LifeRule, r1: Rows, r2: Rows, x: int, y: int)
    requires
        forall|a: int, b: int| -1 <= a - x <= 1 && -1 <= b - y <= 1 ==> #[trigger] cell_at(r1, a, b) == cell_at(r2, a, b),
    ensures
        next_cell(rule, r1, x, y) == next_cell(rule, r2, x, y),
{
    assert(cell_at(r1, x, y) == cell_at(r2, x, y));
    assert(cell_at(r1, x - 1, y - 1) == cell_at(r2, x - 1, y - 1));
    assert(cell_at(r1, x, y - 1) == cell_at(r2, x, y - 1));
    assert(cell_at(r1, x + 1, y - 1) == cell_at(r2, x + 1, y - 1));
    assert(cell_at(r1, x - 1, y) == cell_at(r2, x - 1, y));
    assert(cell_at(r1, x + 1, y) == cell_at(r2, x + 1, y));
    assert(cell_at(r1, x - 1, y + 1) == cell_at(r2, x - 1, y + 1));
    assert(cell_at(r1, x, y + 1) == cell_at(r2, x, y + 1));
    assert(cell_at(r1, x + 1, y + 1) == cell_at(r2, x + 1, y + 1));
    assert(crate::life::grid::ring_cells(r1, x, y) =~= crate::life::grid::ring_cells(r2, x, y));
}

/// A consistent, stable grid stays so when a faction-0 cell is inserted.
pub proof fn lemma_insert_consistent(g: CGrid, ups: Seq<Pos>, w: int, h: int, rule: LifeRule, q: Pos, c: Cell)
    requires
        counts_consistent(g, w, h),
        stable(g, ups, w, h, rule),
        c.spec_faction() == 0,
    ensures
        cached_insert(g, ups, w, h, q, c) is Some,
        ({
            let res = cached_insert(g, ups, w, h, q, c)->0;
            &&& counts_consistent(res.0, w, h)
            &&& stable(res.0, res.1, w, h, rule)
            &&& in_grid(w, h, q.x as int, q.y as int) ==> cgrid_rows(res.0, w, h) == cgrid_rows(g, w, h).update(
                q.y as int,
                cgrid_rows(g, w, h)[q.y as int].update(q.x as int, c),
            )
            &&& !in_grid(w, h, q.x as int, q.y as int) ==> res == (g, ups)
            &&& res.1 == ups || res.1 == ups.push(q)
        }),
{
    let qx = q.x as int;
    let qy = q.y as int;
    if in_grid(w, h, qx, qy) {
        let i = cidx(w, qx, qy);
        lemma_cidx_bounds(w, h, qx, qy);
        lemma_change_cell(g, w, h, qx, qy, c);
        let r = cgrid_rows(g, w, h);
        let r1 = r.update(qy, r[qy].update(qx, c));
        if c == g[i].0 {
            assert(r1 =~~= r);
        } else {
            let g2 = changed(g, w, h, qx, qy, c);
            let ups2 = ups.push(q);
            assert(cached_insert(g, ups, w, h, q, c) == Some((g2, ups2)));
            assert forall|x: int, y: int|
                in_grid(w, h, x, y) && #[trigger] next_cell(rule, cgrid_rows(g2, w, h), x, y) != cgrid_rows(g2, w, h)[y][x]
                    implies covered_by(ups2, x, y) by {
                if -1 <= x - qx <= 1 && -1 <= y - qy <= 1 {
                    lemma_covered_push(ups, q, x, y);
                } else {
                    assert forall|a: int, b: int| -1 <= a - x <= 1 && -1 <= b - y <= 1 implies #[trigger] cell_at(r1, a, b) == cell_at(r, a, b) by {}
                    lemma_next_local(rule, r1, r, x, y);
                    assert(next_cell(rule, r, x, y) != r[y][x]);
                    lemma_covered_push(ups, q, x, y);
                }
            }
        }
    }
}

/// The invariant kept while a cached step runs from the consistent grid `g0`: counts stay
/// consistent, every cell holds either its old value or its next value, and every cell that
/// changed is recorded.
pub open spec fn step_inv(g0: CGrid, st: CState, w: int, h: int, rule: LifeRule) -> bool {
    let r0 = cgrid_rows(g0, w, h);
    let n = next_rows(rule, r0, w, h);
    let r = cgrid_rows(st.0, w, h);
    &&& counts_consistent(st.0, w, h)
    &&& forall|x: int, y: int| in_grid(w, h, x, y) ==> #[trigger] r[y][x] == n[y][x] || r[y][x] == r0[y][x]
    &&& forall|x: int, y: int|
        in_grid(w, h, x, y) && #[trigger] r[y][x] != r0[y][x] ==> st.1.contains(Pos { x: x as i16, y: y as i16 })
    &&& forall|i: int| 0 <= i < st.1.len() ==> in_grid(w, h, (#[trigger] st.1[i]).x as int, st.1[i].y as int)
}

/// The cells that already hold their next value keep it.
pub open spec fn keeps_next(g0: CGrid, st: CState, st2: CState, w: int, h: int, rule: LifeRule) -> bool {
    let n = next_rows(rule, cgrid_rows(g0, w, h), w, h);
    forall|x: int, y: int|
        in_grid(w, h, x, y) && #[trigger] cgrid_rows(st.0, w, h)[y][x] == n[y][x] ==> cgrid_rows(st2.0, w, h)[y][x]
            == n[y][x]
}

proof fn lemma_check_one(g0: CGrid, st: CState, w: int, h: int, rule: LifeRule, x: int, y: int)
    requires
        counts_consistent(g0, w, h),
        states_valid(cgrid_rows(g0, w, h)),
        step_inv(g0, st, w, h, rule),
        in_grid(w, h, x, y) ==> -32768 <= x <= 32767 && -32768 <= y <= 32767,
    ensures
        check_one(g0, st, w, h, rule, x, y) is Some,
        step_inv(g0, check_one(g0, st, w, h, rule, x, y)->0, w, h, rule),
        keeps_next(g0, st, check_one(g0, st, w, h, rule, x, y)->0, w, h, rule),
        in_grid(w, h, x, y) ==> cgrid_rows((check_one(g0, st, w, h, rule, x, y)->0).0, w, h)[y][x] == next_rows(
            rule,
            cgrid_rows(g0, w, h),
            w,
            h,
        )[y][x],
{
    let r0 = cgrid_rows(g0, w, h);
    let n = next_rows(rule, r0, w, h);
    let r = cgrid_rows(st.0, w, h);
    if in_grid(w, h, x, y) {
        let i = cidx(w, x, y);
        lemma_cidx_bounds(w, h, x, y);
        let o = g0[i];
        assert(r0[y][x] == o.0);
        lemma_next_cell_single(rule, r0, x, y);
        lemma_count_alive_bound(scan_cells(r0, x, y));
        let nc = rule.spec_update(o.0.spec_state(), o.1 as u8, o.0.spec_faction());
        assert(nc == n[y][x]);
        let ns = rule.spec_next_state(o.0.spec_state(), o.1 as u8);
        assert(ns <= 3) by {
            let e = rule.spec_lut()[o.0.spec_state() as int];
            let sh = ((o.1 as u8) * 2) as u32;
            assert(((e & (3u32 << sh)) >> sh) as u8 <= 3) by (bit_vector)
                requires
                    sh < 32,
            ;
        }
        crate::life::lemma_packed(ns, 0);
        assert(nc.spec_faction() == 0);
        let cur = st.0[i];
        assert(r[y][x] == cur.0);
        if nc != cur.0 {
            lemma_change_cell(st.0, w, h, x, y, nc);
            let g2 = changed(st.0, w, h, x, y, nc);
            let p = Pos { x: x as i16, y: y as i16 };
            let st2 = check_one(g0, st, w, h, rule, x, y)->0;
            assert(st2.0 == g2);
            assert(st2.1 == st.1.push(p));
            let r2 = cgrid_rows(g2, w, h);
            assert forall|a: int, b: int| in_grid(w, h, a, b) implies #[trigger] r2[b][a] == (if a == x && b == y {
                nc
            } else {
                r[b][a]
            }) by {}
            assert forall|a: int, b: int|
                in_grid(w, h, a, b) && #[trigger] r2[b][a] != r0[b][a] implies st2.1.contains(Pos { x: a as i16, y: b as i16 }) by {
                if a == x && b == y {
                    assert(st2.1[st2.1.len() - 1] == p);
                } else {
                    assert(st.1.contains(Pos { x: a as i16, y: b as i16 }));
                    let k = choose|k: int| 0 <= k < st.1.len() && st.1[k] == Pos { x: a as i16, y: b as i16 };
                    assert(st2.1[k] == st.1[k]);
                }
            }
            assert forall|k: int| 0 <= k < st2.1.len() implies in_grid(w, h, (#[trigger] st2.1[k]).x as int, st2.1[k].y as int) by {
                if k < st.1.len() {
                    assert(st2.1[k] == st.1[k]);
                }
            }
        }
    }
}

proof fn lemma_check_window(g0: CGrid, st: CState, w: int, h: int, rule: LifeRule, ux: int, uy: int, k: nat)
    requires
        counts_consistent(g0, w, h),
        states_valid(cgrid_rows(g0, w, h)),
        step_inv(g0, st, w, h, rule),
        k <= 9,
        w <= 32767,
        h <= 32767,
    ensures
        check_window(g0, st, w, h, rule, ux, uy, k) is Some,
        step_inv(g0, check_window(g0, st, w, h, rule, ux, uy, k)->0, w, h, rule),
        keeps_next(g0, st, check_window(g0, st, w, h, rule, ux, uy, k)->0, w, h, rule),
        forall|j: int|
            0 <= j < k && in_grid(w, h, ux + (#[trigger] window_offset(j)).0, uy + window_offset(j).1) ==> cgrid_rows(
                (check_window(g0, st, w, h, rule, ux, uy, k)->0).0,
                w,
                h,
            )[uy + window_offset(j).1][ux + window_offset(j).0] == next_rows(rule, cgrid_rows(g0, w, h), w, h)[uy
                + window_offset(j).1][ux + window_offset(j).0],
    decreases k,
{
    if k > 0 {
        lemma_check_window(g0, st, w, h, rule, ux, uy, (k - 1) as nat);
        let s1 = check_window(g0, st, w, h, rule, ux, uy, (k - 1) as nat)->0;
        let d = window_offset(k - 1);
        lemma_check_one(g0, s1, w, h, rule, ux + d.0, uy + d.1);
    }
}

proof fn lemma_window_covers(ux: int, uy: int, x: int, y: int) -> (j: int)
    requires
        -1 <= x - ux <= 1,
        -1 <= y - uy <= 1,
    ensures
        0 <= j < 9,
        ux + window_offset(j).0 == x,
        uy + window_offset(j).1 == y,
{
    (y - uy + 1) * 3 + (x - ux + 1)
}

proof fn lemma_check_all(g0: CGrid, st: CState, w: int, h: int, rule: LifeRule, ups: Seq<Pos>)
    requires
        counts_consistent(g0, w, h),
        states_valid(cgrid_rows(g0, w, h)),
        step_inv(g0, st, w, h, rule),
        w <= 32767,
        h <= 32767,
    ensures
        check_all(g0, st, w, h, rule, ups) is Some,
        step_inv(g0, check_all(g0, st, w, h, rule, ups)->0, w, h, rule),
        keeps_next(g0, st, check_all(g0, st, w, h, rule, ups)->0, w, h, rule),
        forall|x: int, y: int|
            in_grid(w, h, x, y) && #[trigger] covered_by(ups, x, y) ==> cgrid_rows((check_all(g0, st, w, h, rule, ups)->0).0, w, h)[y][x]
                == next_rows(rule, cgrid_rows(g0, w, h), w, h)[y][x],
    decreases ups.len(),
{
    if ups.len() > 0 {
        let pre = ups.drop_last();
        lemma_check_all(g0, st, w, h, rule, pre);
        let s1 = check_all(g0, st, w, h, rule, pre)->0;
        let u = ups.last();
        lemma_check_window(g0, s1, w, h, rule, u.x as int, u.y as int, 9);
        let s2 = check_all(g0, st, w, h, rule, ups)->0;
        let n = next_rows(rule, cgrid_rows(g0, w, h), w, h);
        assert forall|x: int, y: int| in_grid(w, h, x, y) && #[trigger] covered_by(ups, x, y) implies cgrid_rows(s2.0, w, h)[y][x] == n[y][x] by {
            if covered_by(pre, x, y) {
                assert(cgrid_rows(s1.0, w, h)[y][x] == n[y][x]);
            } else {
                let j = lemma_window_covers(u.x as int, u.y as int, x, y);
                assert(in_grid(w, h, u.x + window_offset(j).0, u.y + window_offset(j).1));
            }
        }
    }
}

proof fn lemma_contains_covered(ups: Seq<Pos>, a: Pos, x: int, y: int)
    requires
        ups.contains(a),
        -1 <= x - a.x <= 1,
        -1 <= y - a.y <= 1,
    ensures
        covered_by(ups, x, y),
    decreases ups.len(),
{
    if ups.last() != a {
        let k = choose|k: int| 0 <= k < ups.len() && ups[k] == a;
        assert(ups.drop_last()[k] == a);
        lemma_contains_covered(ups.drop_last(), a, x, y);
    }
}

/// One cached generation of a consistent, stable, single-faction grid computes exactly the
/// next generation (the same as the naive algorithm), and the result is again consistent and
/// stable, with every recorded change inside the grid.
#[verifier::spinoff_prover]
#[verifier::rlimit(40)]
pub proof fn lemma_step_consistent(g0: CGrid, ups: Seq<Pos>, pops: Seq<i16>, w: int, h: int, rule: LifeRule)
    requires
        counts_consistent(g0, w, h),
        stable(g0, ups, w, h, rule),
        states_valid(cgrid_rows(g0, w, h)),
        w <= 32767,
        h <= 32767,
    ensures
        cached_step(g0, ups, pops, w, h, rule) is Some,
        ({
            let res = cached_step(g0, ups, pops, w, h, rule)->0;
            &&& cgrid_rows(res.0, w, h) == next_rows(rule, cgrid_rows(g0, w, h), w, h)
            &&& counts_consistent(res.0, w, h)
            &&& stable(res.0, res.1, w, h, rule)
            &&& forall|i: int| 0 <= i < res.1.len() ==> in_grid(w, h, (#[trigger] res.1[i]).x as int, res.1[i].y as int)
        }),
{
    let r0 = cgrid_rows(g0, w, h);
    let n = next_rows(rule, r0, w, h);
    let st0: CState = (g0, Seq::empty(), pops);
    assert(step_inv(g0, st0, w, h, rule));
    lemma_check_all(g0, st0, w, h, rule, ups);
    let res = check_all(g0, st0, w, h, rule, ups)->0;
    let r = cgrid_rows(res.0, w, h);
    assert(r =~~= n) by {
        assert forall|y: int, x: int| 0 <= y < h && 0 <= x < w implies #[trigger] r[y][x] == n[y][x] by {
            assert(in_grid(w, h, x, y));
            if !covered_by(ups, x, y) {
                assert(n[y][x] == next_cell(rule, r0, x, y));
                assert(r[y][x] == n[y][x] || r[y][x] == r0[y][x]);
            }
        }
    }
    assert forall|x: int, y: int|
        in_grid(w, h, x, y) && #[trigger] next_cell(rule, cgrid_rows(res.0, w, h), x, y) != cgrid_rows(res.0, w, h)[y][x]
            implies covered_by(res.1, x, y) by {
        if forall|a: int, b: int| -1 <= a - x <= 1 && -1 <= b - y <= 1 ==> #[trigger] cell_at(n, a, b) == cell_at(r0, a, b) {
            lemma_next_local(rule, n, r0, x, y);
            assert(n[y][x] == next_cell(rule, r0, x, y));
            assert(cell_at(n, x, y) == n[y][x]);
            assert(cell_at(r0, x, y) == r0[y][x]);
        } else {
            let (a, b) = choose|a: int, b: int| -1 <= a - x <= 1 && -1 <= b - y <= 1 && #[trigger] cell_at(n, a, b) != cell_at(r0, a, b);
            assert(in_grid(w, h, a, b));
            assert(r[b][a] != r0[b][a]);
            lemma_contains_covered(res.1, Pos { x: a as i16, y: b as i16 }, x, y);
        }
    }
}


/// The populations are the exact numbers of live cells of each faction, in a grid of fewer
/// than 32767 cells (so no count reaches the `i16` limit).
pub open spec fn pops_exact(st: CState, w: int, h: int) -> bool {
    &&& st.2.len() == 16
    &&& 0 <= w
    &&& 0 <= h
    &&& w * h < 32767
    &&& forall|f: u8| f < 16 ==> #[trigger] st.2[f as int] == crate::life::grid::pop_rows(cgrid_rows(st.0, w, h), f)
}

proof fn lemma_pop_seq_le(s: Seq<Cell>, f: u8)
    ensures
        crate::life::grid::pop_seq(s, f) <= s.len(),
    decreases s.len(),
{
    if s.len() > 0 {
        lemma_pop_seq_le(s.drop_last(), f);
    }
}

/// A grid of `h` rows of `w` cells holds at most `w * h` live cells of a faction.
pub proof fn lemma_pop_rows_le(r: Rows, w: int, h: int, f: u8)
    requires
        crate::life::grid::rows_wf(r, w, h),
        w >= 0,
    ensures
        crate::life::grid::pop_rows(r, f) <= w * h,
    decreases h,
{
    if h > 0 {
        let p = r.drop_last();
        assert(crate::life::grid::rows_wf(p, w, h - 1));
        lemma_pop_rows_le(p, w, h - 1, f);
        lemma_pop_seq_le(r.last(), f);
        assert((h - 1) * w + w == w * h) by (nonlinear_arith);
    }
}

proof fn lemma_check_one_pops(g0: CGrid, st: CState, w: int, h: int, rule: LifeRule, x: int, y: int)
    requires
        counts_consistent(g0, w, h),
        states_valid(cgrid_rows(g0, w, h)),
        step_inv(g0, st, w, h, rule),
        pops_exact(st, w, h),
        in_grid(w, h, x, y) ==> -32768 <= x <= 32767 && -32768 <= y <= 32767,
    ensures
        pops_exact(check_one(g0, st, w, h, rule, x, y)->0, w, h),
{
    lemma_check_one(g0, st, w, h, rule, x, y);
    if in_grid(w, h, x, y) {
        let r0 = cgrid_rows(g0, w, h);
        let r = cgrid_rows(st.0, w, h);
        let i = cidx(w, x, y);
        lemma_cidx_bounds(w, h, x, y);
        let o = g0[i];
        assert(r0[y][x] == o.0);
        let nc = rule.spec_update(o.0.spec_state(), o.1 as u8, o.0.spec_faction());
        let ns = rule.spec_next_state(o.0.spec_state(), o.1 as u8);
        assert(ns <= 3) by {
            let e = rule.spec_lut()[o.0.spec_state() as int];
            let sh = ((o.1 as u8) * 2) as u32;
            assert(((e & (3u32 << sh)) >> sh) as u8 <= 3) by (bit_vector)
                requires
                    sh < 32,
            ;
        }
        crate::life::lemma_packed(ns, 0);
        assert(nc.spec_faction() == 0);
        let cur = st.0[i];
        assert(r[y][x] == cur.0);
        assert(cur.0.spec_faction() == 0);
        if nc != cur.0 {
            lemma_change_cell(st.0, w, h, x, y, nc);
            let st2 = check_one(g0, st, w, h, rule, x, y)->0;
            let r2 = cgrid_rows(st2.0, w, h);
            assert(r2 == r.update(y, r[y].update(x, nc)));
            assert forall|f: u8| f < 16 implies #[trigger] st2.2[f as int] == crate::life::grid::pop_rows(r2, f) by {
                crate::life::grid::lemma_pop_rows_update(r, y, x, nc, f);
                lemma_pop_rows_le(r2, w, h, f);
            }
        }
    }
}

proof fn lemma_check_window_pops(g0: CGrid, st: CState, w: int, h: int, rule: LifeRule, ux: int, uy: int, k: nat)
    requires
        counts_consistent(g0, w, h),
        states_valid(cgrid_rows(g0, w, h)),
        step_inv(g0, st, w, h, rule),
        pops_exact(st, w, h),
        k <= 9,
        w <= 32767,
        h <= 32767,
    ensures
        pops_exact(check_window(g0, st, w, h, rule, ux, uy, k)->0, w, h),
    decreases k,
{
    lemma_check_window(g0, st, w, h, rule, ux, uy, k);
    if k > 0 {
        lemma_check_window(g0, st, w, h, rule, ux, uy, (k - 1) as nat);
        lemma_check_window_pops(g0, st, w, h, rule, ux, uy, (k - 1) as nat);
        let s1 = check_window(g0, st, w, h, rule, ux, uy, (k - 1) as nat)->0;
        let d = window_offset(k - 1);
        lemma_check_one_pops(g0, s1, w, h, rule, ux + d.0, uy + d.1);
    }
}

proof fn lemma_check_all_pops(g0: CGrid, st: CState, w: int, h: int, rule: LifeRule, ups: Seq<Pos>)
    requires
        counts_consistent(g0, w, h),
        states_valid(cgrid_rows(g0, w, h)),
        step_inv(g0, st, w, h, rule),
        pops_exact(st, w, h),
        w <= 32767,
        h <= 32767,
    ensures
        pops_exact(check_all(g0, st, w, h, rule, ups)->0, w, h),
    decreases ups.len(),
{
    lemma_check_all(g0, st, w, h, rule, ups);
    if ups.len() > 0 {
        let pre = ups.drop_last();
        lemma_check_all(g0, st, w, h, rule, pre);
        lemma_check_all_pops(g0, st, w, h, rule, pre);
        let s1 = check_all(g0, st, w, h, rule, pre)->0;
        let u = ups.last();
        lemma_check_window_pops(g0, s1, w, h, rule, u.x as int, u.y as int, 9);
    }
}

/// In a grid of fewer than 32767 cells, one cached generation keeps the populations equal
/// to the numbers of live cells.
pub proof fn lemma_step_pops(g0: CGrid, ups: Seq<Pos>, pops: Seq<i16>, w: int, h: int, rule: LifeRule)
    requires
        counts_consistent(g0, w, h),
        states_valid(cgrid_rows(g0, w, h)),
        pops_exact((g0, Seq::empty(), pops), w, h),
        w <= 32767,
        h <= 32767,
    ensures
        pops_exact(cached_step(g0, ups, pops, w, h, rule)->0, w, h),
{
    let st0: CState = (g0, Seq::empty(), pops);
    assert(step_inv(g0, st0, w, h, rule));
    lemma_check_all_pops(g0, st0, w, h, rule, ups);
}

} // verus!
