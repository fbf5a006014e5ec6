use vstd::prelude::*;

use super::{dead_cell, Cell, LifeRule};

verus! {

/// A grid as a sequence of rows; `rows[y][x]` is the cell at column `x` of row `y`.
pub type Rows = Seq<Seq<Cell>>;

/// `rows` has `h` rows of `w` cells.
pub open spec fn rows_wf(rows: Rows, w: int, h: int) -> bool {
    &&& rows.len() == h
    &&& forall|y: int| 0 <= y < h ==> (#[trigger] rows[y]).len() == w
}

/// The cell at `(x, y)`, or a dead cell outside the grid.
pub open spec fn cell_at(rows: Rows, x: int, y: int) -> Cell {
    if 0 <= y < rows.len() && 0 <= x < rows[y].len() {
        rows[y][x]
    } else {
        dead_cell()
    }
}

/// One step of the neighbour vote. `acc` is `(count, faction)`: a live neighbour of the
/// leading faction adds one, one of another faction removes one, and when the count is
/// zero the other faction takes the lead with a count of one.
pub open spec fn vote_step(acc: (u8, u8), c: Cell) -> (u8, u8) {
    if c.spec_is_alive() {
        if c.spec_faction() == acc.1 {
            ((acc.0 + 1) as u8, acc.1)
        } else if acc.0 > 0 {
            ((acc.0 - 1) as u8, acc.1)
        } else {
            (1u8, c.spec_faction())
        }
    } else {
        acc
    }
}

/// The vote over `cells`, in order, starting from `acc`.
pub open spec fn vote(acc: (u8, u8), cells: Seq<Cell>) -> (u8, u8)
    decreases cells.len(),
{
    if cells.len() == 0 {
        acc
    } else {
        vote_step(vote(acc, cells.drop_last()), cells.last())
    }
}

/// The eight neighbours of `(x, y)`, clockwise from the top-left corner.
pub open spec fn ring_cells(rows: Rows, x: int, y: int) -> Seq<Cell> {
    seq![
        cell_at(rows, x - 1, y - 1),
        cell_at(rows, x, y - 1),
        cell_at(rows, x + 1, y - 1),
        cell_at(rows, x + 1, y),
        cell_at(rows, x + 1, y + 1),
        cell_at(rows, x, y + 1),
        cell_at(rows, x - 1, y + 1),
        cell_at(rows, x - 1, y),
    ]
}

/// The eight neighbours of `(x, y)`, row by row from the top-left corner.
pub open spec fn scan_cells(rows: Rows, x: int, y: int) -> Seq<Cell> {
    seq![
        cell_at(rows, x - 1, y - 1),
        cell_at(rows, x, y - 1),
        cell_at(rows, x + 1, y - 1),
        cell_at(rows, x - 1, y),
        cell_at(rows, x + 1, y),
        cell_at(rows, x - 1, y + 1),
        cell_at(rows, x, y + 1),
        cell_at(rows, x + 1, y + 1),
    ]
}

/// `(count, faction)` of the neighbours of `(x, y)`, voted clockwise.
pub open spec fn ring_neighbors(rows: Rows, x: int, y: int) -> (u8, u8) {
    vote((0u8, cell_at(rows, x, y).spec_faction()), ring_cells(rows, x, y))
}

/// `(count, faction)` of the neighbours of `(x, y)`, voted row by row.
pub open spec fn scan_neighbors(rows: Rows, x: int, y: int) -> (u8, u8) {
    vote((0u8, cell_at(rows, x, y).spec_faction()), scan_cells(rows, x, y))
}

/// The next value of the cell at `(x, y)` under `rule`, with the clockwise vote.
pub open spec fn next_cell(rule: LifeRule, rows: Rows, x: int, y: int) -> Cell {
    let n = ring_neighbors(rows, x, y);
    rule.spec_update(cell_at(rows, x, y).spec_state(), n.0, n.1)
}

/// The next generation of a `w` by `h` grid under `rule`, with the clockwise vote.
pub open spec fn next_rows(rule: LifeRule, rows: Rows, w: int, h: int) -> Rows {
    Seq::new(h as nat, |y: int| Seq::new(w as nat, |x: int| next_cell(rule, rows, x, y)))
}

/// The next value of the cell at `(x, y)` under `rule`, with the row-by-row vote.
pub open spec fn next_cell_scan(rule: LifeRule, rows: Rows, x: int, y: int) -> Cell {
    let n = scan_neighbors(rows, x, y);
    rule.spec_update(cell_at(rows, x, y).spec_state(), n.0, n.1)
}

/// The next generation under `rule`, with the row-by-row vote.
pub open spec fn next_rows_scan(rule: LifeRule, rows: Rows, w: int, h: int) -> Rows {
    Seq::new(h as nat, |y: int| Seq::new(w as nat, |x: int| next_cell_scan(rule, rows, x, y)))
}

/// Every cell is in one of the four states a rule knows.
pub open spec fn states_valid(rows: Rows) -> bool {
    forall|y: int, x: int|
        0 <= y < rows.len() && 0 <= x < rows[y].len() ==> (#[trigger] rows[y][x]).spec_state() < 4
}

/// Number of live cells of `faction` in `cells`.
pub open spec fn pop_seq(cells: Seq<Cell>, faction: u8) -> nat
    decreases cells.len(),
{
    if cells.len() == 0 {
        0
    } else {
        pop_seq(cells.drop_last(), faction) + if cells.last().spec_is_alive()
            && cells.last().spec_faction() == faction {
            1nat
        } else {
            0nat
        }
    }
}

/// Number of live cells of `faction` in the grid.
pub open spec fn pop_rows(rows: Rows, faction: u8) -> nat
    decreases rows.len(),
{
    if rows.len() == 0 {
        0
    } else {
        pop_rows(rows.drop_last(), faction) + pop_seq(rows.last(), faction)
    }
}

/// One if `c` is a live cell of `faction`, else zero.
pub open spec fn alive_of(c: Cell, faction: u8) -> nat {
    if c.spec_is_alive() && c.spec_faction() == faction {
        1
    } else {
        0
    }
}

/// Replacing one cell changes the count by the difference of the two cells.
pub proof fn lemma_pop_seq_update(s: Seq<Cell>, i: int, c: Cell, f: u8)
    requires
        0 <= i < s.len(),
    ensures
        pop_seq(s.update(i, c), f) + alive_of(s[i], f) == pop_seq(s, f) + alive_of(c, f),
    decreases s.len(),
{
    if i == s.len() - 1 {
        assert(s.update(i, c).drop_last() =~= s.drop_last());
    } else {
        lemma_pop_seq_update(s.drop_last(), i, c, f);
        assert(s.update(i, c).drop_last() =~= s.drop_last().update(i, c));
    }
}

/// Replacing one cell of a grid changes the count by the difference of the two cells.
pub proof fn lemma_pop_rows_update(r: Rows, y: int, x: int, c: Cell, f: u8)
    requires
        0 <= y < r.len(),
        0 <= x < r[y].len(),
    ensures
        pop_rows(r.update(y, r[y].update(x, c)), f) + alive_of(r[y][x], f) == pop_rows(r, f) + alive_of(c, f),
    decreases r.len(),
{
    let r2 = r.update(y, r[y].update(x, c));
    if y == r.len() - 1 {
        assert(r2.drop_last() =~= r.drop_last());
        lemma_pop_seq_update(r[y], x, c, f);
    } else {
        lemma_pop_rows_update(r.drop_last(), y, x, c, f);
        assert(r2.drop_last() =~= r.drop_last().update(y, r[y].update(x, c)));
    }
}

/// A vote over at most eight cells counts at most eight.
pub proof fn lemma_vote_bound(acc: (u8, u8), cells: Seq<Cell>)
    requires
        acc.0 as int + cells.len() <= 255,
    ensures
        vote(acc, cells).0 <= acc.0 as int + cells.len(),
    decreases cells.len(),
{
    if cells.len() > 0 {
        lemma_vote_bound(acc, cells.drop_last());
    }
}

} // verus!

verus! {

/// Index of `(x, y)` in a grid stored row by row, `w` cells per row.
pub open spec fn cidx(w: int, x: int, y: int) -> int {
    y * w + x
}

/// `(x, y)` lies in a `w` by `h` grid.
pub open spec fn in_grid(w: int, h: int, x: int, y: int) -> bool {
    0 <= x < w && 0 <= y < h
}

pub proof fn lemma_cidx_bounds(w: int, h: int, x: int, y: int)
    requires
        in_grid(w, h, x, y),
    ensures
        0 <= cidx(w, x, y) < w * h,
{
    assert(0 <= y * w + x < w * h) by (nonlinear_arith)
        requires
            0 <= x < w,
            0 <= y < h,
    ;
}

pub proof fn lemma_cidx_inj(w: int, a: int, b: int, c: int, d: int)
    requires
        0 <= a < w,
        0 <= c < w,
        b >= 0,
        d >= 0,
        cidx(w, a, b) == cidx(w, c, d),
    ensures
        a == c,
        b == d,
{
    assert(a == c && b == d) by (nonlinear_arith)
        requires
            0 <= a < w,
            0 <= c < w,
            b >= 0,
            d >= 0,
            b * w + a == d * w + c,
    ;
}

/// Offset `(dx, dy)` of the `j`-th cell of the 3 by 3 window around a cell, row by row.
pub open spec fn window_offset(j: int) -> (int, int) {
    (j % 3 - 1, j / 3 - 1)
}

/// Offset of the `k`-th of the eight neighbours, row by row (the window without its centre).
pub open spec fn neighbor_offset(k: int) -> (int, int) {
    window_offset(if k < 4 {
        k
    } else {
        k + 1
    })
}

} // verus!

verus! {

/// Number of live cells in `cells`.
pub open spec fn count_alive(cells: Seq<Cell>) -> nat
    decreases cells.len(),
{
    if cells.len() == 0 {
        0
    } else {
        count_alive(cells.drop_last()) + if cells.last().spec_is_alive() {
            1nat
        } else {
            0nat
        }
    }
}

/// Number of live neighbours of `(x, y)`.
pub open spec fn neighbor_count(rows: Rows, x: int, y: int) -> nat {
    count_alive(scan_cells(rows, x, y))
}

/// Every cell of the grid belongs to faction 0.
pub open spec fn single_faction(rows: Rows) -> bool {
    forall|y: int, x: int|
        0 <= y < rows.len() && 0 <= x < rows[y].len() ==> (#[trigger] rows[y][x]).spec_faction() == 0
}

/// `q` is one of the eight neighbours of `p`.
pub open spec fn is_neighbor(px: int, py: int, qx: int, qy: int) -> bool {
    !(px == qx && py == qy) && -1 <= qx - px <= 1 && -1 <= qy - py <= 1
}

/// Counting a vote where every cell is of the leading faction.
pub proof fn lemma_vote_single(acc: (u8, u8), cells: Seq<Cell>)
    requires
        acc.1 == 0,
        acc.0 + cells.len() <= 255,
        forall|i: int| 0 <= i < cells.len() ==> (#[trigger] cells[i]).spec_faction() == 0,
    ensures
        vote(acc, cells) == ((acc.0 + count_alive(cells)) as u8, 0u8),
    decreases cells.len(),
{
    lemma_count_alive_bound(cells);
    if cells.len() > 0 {
        let p = cells.drop_last();
        assert forall|i: int| 0 <= i < p.len() implies (#[trigger] p[i]).spec_faction() == 0 by {
            assert(p[i] == cells[i]);
        }
        lemma_vote_single(acc, p);
        lemma_count_alive_bound(p);
        assert(cells.last() == cells[cells.len() - 1]);
    }
}

pub proof fn lemma_count_alive_bound(cells: Seq<Cell>)
    ensures
        count_alive(cells) <= cells.len(),
    decreases cells.len(),
{
    if cells.len() > 0 {
        lemma_count_alive_bound(cells.drop_last());
    }
}

/// Count of eight cells, term by term.
pub proof fn lemma_count8(cs: Seq<Cell>)
    requires
        cs.len() == 8,
    ensures
        count_alive(cs) == (if cs[0].spec_is_alive() { 1nat } else { 0nat }) + (if cs[1].spec_is_alive() { 1nat } else { 0nat })
            + (if cs[2].spec_is_alive() { 1nat } else { 0nat }) + (if cs[3].spec_is_alive() { 1nat } else { 0nat })
            + (if cs[4].spec_is_alive() { 1nat } else { 0nat }) + (if cs[5].spec_is_alive() { 1nat } else { 0nat })
            + (if cs[6].spec_is_alive() { 1nat } else { 0nat }) + (if cs[7].spec_is_alive() { 1nat } else { 0nat }),
{
    reveal_with_fuel(count_alive, 9);
    assert(cs.drop_last().drop_last().drop_last().drop_last().drop_last().drop_last().drop_last().drop_last() =~= Seq::<Cell>::empty());
    assert(cs.drop_last().last() == cs[6]);
    assert(cs.drop_last().drop_last().last() == cs[5]);
    assert(cs.drop_last().drop_last().drop_last().last() == cs[4]);
    assert(cs.drop_last().drop_last().drop_last().drop_last().last() == cs[3]);
    assert(cs.drop_last().drop_last().drop_last().drop_last().drop_last().last() == cs[2]);
    assert(cs.drop_last().drop_last().drop_last().drop_last().drop_last().drop_last().last() == cs[1]);
    assert(cs.drop_last().drop_last().drop_last().drop_last().drop_last().drop_last().drop_last().last() == cs[0]);
}

/// With a single faction, the next cell is given by the plain count of live neighbours.
pub proof fn lemma_next_cell_single(rule: LifeRule, rows: Rows, x: int, y: int)
    requires
        single_faction(rows),
    ensures
        neighbor_count(rows, x, y) <= 8,
        next_cell(rule, rows, x, y) == rule.spec_update(
            cell_at(rows, x, y).spec_state(),
            neighbor_count(rows, x, y) as u8,
            0,
        ),
        next_cell_scan(rule, rows, x, y) == next_cell(rule, rows, x, y),
{
    crate::life::lemma_dead_cell();
    let ring = ring_cells(rows, x, y);
    let scan = scan_cells(rows, x, y);
    assert forall|i: int| 0 <= i < ring.len() implies (#[trigger] ring[i]).spec_faction() == 0 by {}
    assert forall|i: int| 0 <= i < scan.len() implies (#[trigger] scan[i]).spec_faction() == 0 by {}
    lemma_vote_single((0u8, 0u8), ring);
    lemma_vote_single((0u8, 0u8), scan);
    lemma_count8(ring);
    lemma_count8(scan);
    assert(cell_at(rows, x, y).spec_faction() == 0);
}


/// The next generation holds only states a rule knows.
pub proof fn lemma_next_states_valid(rule: LifeRule, rows: Rows, w: int, h: int)
    ensures
        states_valid(next_rows(rule, rows, w, h)),
{
    let n = next_rows(rule, rows, w, h);
    assert forall|y: int, x: int| 0 <= y < n.len() && 0 <= x < n[y].len() implies (#[trigger] n[y][x]).spec_state() < 4 by {
        let nb = ring_neighbors(rows, x, y);
        let st = cell_at(rows, x, y).spec_state();
        let ns = rule.spec_next_state(st, nb.0);
        assert(ns <= 3) by {
            let e = rule.spec_lut()[st as int];
            let nn = nb.0;
            assert(((e & (3u32 << ((nn * 2) as u32))) >> ((nn * 2) as u32)) as u8 <= 3) by (bit_vector);
        }
        crate::life::lemma_packed_faction(ns, nb.1);
    }
}

} // verus!
