use vstd::prelude::*;

use crate::life::grid::{
    cell_at, lemma_vote_bound, next_cell, next_rows, pop_rows, pop_seq, ring_cells, rows_wf, states_valid,
    vote, vote_step, Rows,
};
use crate::life::pos::clamp_i16;
use crate::life::pos::Pos;
use crate::life::{cell_of, dead_cell, group_cell, lemma_dead_cell, packed, Cell, LifePops, LifeRule};

verus! {

broadcast use group_cell;

/// Index of padded position `(px, py)` in a grid `w` cells wide (one dead cell of border
/// on each side).
pub open spec fn pidx(w: int, px: int, py: int) -> int {
    py * (w + 2) + px
}

/// The largest width or height a grid can have.
pub open spec fn max_dim() -> int {
    32765
}

/// Naive stepping: every cell is recomputed each generation. The grid is stored flat,
/// with a border of dead cells so neighbour reads need no bounds checks.
#[derive(PartialEq, Eq, Debug, Hash, Clone)]
pub struct LifeBasic {
    size: Pos,
    grid: Vec<Cell>,
}

proof fn lemma_pidx_bounds(w: int, h: int, px: int, py: int)
    requires
        w >= 0,
        h >= 0,
        0 <= px < w + 2,
        0 <= py < h + 2,
    ensures
        0 <= pidx(w, px, py) < (w + 2) * (h + 2),
{
    assert(0 <= py * (w + 2) + px < (w + 2) * (h + 2)) by (nonlinear_arith)
        requires
            w >= 0,
            h >= 0,
            0 <= px < w + 2,
            0 <= py < h + 2,
    ;
}

proof fn lemma_pidx_inj(w: int, a: int, b: int, c: int, d: int)
    requires
        w >= 0,
        0 <= a < w + 2,
        0 <= c < w + 2,
        b >= 0,
        d >= 0,
        pidx(w, a, b) == pidx(w, c, d),
    ensures
        a == c,
        b == d,
{
    assert(a == c && b == d) by (nonlinear_arith)
        requires
            w >= 0,
            0 <= a < w + 2,
            0 <= c < w + 2,
            b >= 0,
            d >= 0,
            b * (w + 2) + a == d * (w + 2) + c,
    ;
}

impl LifeBasic {
    pub closed spec fn spec_size(self) -> Pos {
        self.size
    }

    pub closed spec fn width(self) -> int {
        self.size.x as int
    }

    pub closed spec fn height(self) -> int {
        self.size.y as int
    }

    /// The padded cell at `(px, py)`.
    pub closed spec fn padded(self, px: int, py: int) -> Cell {
        self.grid@[pidx(self.width(), px, py)]
    }

    pub closed spec fn wf(self) -> bool {
        &&& 0 <= self.size.x <= max_dim()
        &&& 0 <= self.size.y <= max_dim()
        &&& self.grid@.len() == (self.width() + 2) * (self.height() + 2)
        &&& forall|px: int, py: int|
            0 <= px < self.width() + 2 && 0 <= py < self.height() + 2 && (px == 0 || py == 0 || px
                == self.width() + 1 || py == self.height() + 1) ==> #[trigger] self.padded(px, py)
                == dead_cell()
    }

    /// The cells, row by row.
    pub closed spec fn rows(self) -> Rows {
        Seq::new(
            self.size.y as nat,
            |y: int| Seq::new(self.size.x as nat, |x: int| self.padded(x + 1, y + 1)),
        )
    }

    /// The size is within bounds, and the width and height are its coordinates.
    pub proof fn lemma_bounds(self)
        requires
            self.wf(),
        ensures
            0 <= self.spec_size().x <= max_dim(),
            0 <= self.spec_size().y <= max_dim(),
            self.width() == self.spec_size().x as int,
            self.height() == self.spec_size().y as int,
    {
    }

    pub proof fn lemma_rows_wf(self)
        requires
            self.wf(),
        ensures
            rows_wf(self.rows(), self.spec_size().x as int, self.spec_size().y as int),
    {
    }

    /// Every padded cell is the cell of the unpadded grid, or dead on the border.
    proof fn lemma_padded(self, px: int, py: int)
        requires
            self.wf(),
            0 <= px < self.width() + 2,
            0 <= py < self.height() + 2,
        ensures
            self.padded(px, py) == cell_at(self.rows(), px - 1, py - 1),
    {
        if px == 0 || py == 0 || px == self.width() + 1 || py == self.height() + 1 {
            assert(self.padded(px, py) == dead_cell());
        } else {
            assert(self.rows()[py - 1][px - 1] == self.padded(px, py));
        }
    }

    fn index(&self, px: usize, py: usize) -> (i: usize)
        requires
            self.wf(),
            px < self.width() + 2,
            py < self.height() + 2,
        ensures
            i == pidx(self.width(), px as int, py as int),
            i < self.grid@.len(),
    {
        proof {
            lemma_pidx_bounds(self.width(), self.height(), px as int, py as int);
        }
        let stride: usize = self.size.x as usize + 2;
        assert(stride as int == self.width() + 2);
        assert(py * stride == py * (self.width() + 2));
        let len = self.grid.len();
        assert(py * stride + px < len);
        let row: usize = py * stride;
        row + px
    }

    /// An empty grid of `dim.x` by `dim.y` cells.
    pub fn new(dim: Pos) -> (r: Self)
        requires
            0 <= dim.x <= max_dim(),
            0 <= dim.y <= max_dim(),
        ensures
            r.wf(),
            r.spec_size() == dim,
            r.rows() == Seq::new(dim.y as nat, |y: int| Seq::new(dim.x as nat, |x: int| dead_cell())),
    {
        let w: usize = dim.x as usize + 2;
        let h: usize = dim.y as usize + 2;
        assert(w * h <= 32767 * 32767) by (nonlinear_arith)
            requires
                w <= 32767,
                h <= 32767,
        ;
        let n: usize = w * h;
        let mut grid: Vec<Cell> = Vec::new();
        let dead = Cell::new(0, 0);
        assert(packed(0, 0) == 0) by (bit_vector);
        let mut i: usize = 0;
        while i < n
            invariant
                i <= n,
                dead == dead_cell(),
                grid@.len() == i,
                forall|j: int| 0 <= j < i ==> grid@[j] == dead_cell(),
            decreases n - i,
        {
            grid.push(dead);
            i = i + 1;
        }
        let r = Self { size: dim, grid };
        assert(r.rows() =~~= Seq::new(
            dim.y as nat,
            |y: int| Seq::new(dim.x as nat, |x: int| dead_cell()),
        )) by {
            assert forall|y: int, x: int| 0 <= y < dim.y && 0 <= x < dim.x implies #[trigger] r.padded(
                x + 1,
                y + 1,
            ) == dead_cell() by {
                lemma_pidx_bounds(dim.x as int, dim.y as int, x + 1, y + 1);
            }
        }
        assert forall|px: int, py: int|
            0 <= px < r.width() + 2 && 0 <= py < r.height() + 2 implies #[trigger] r.padded(px, py)
            == dead_cell() by {
            lemma_pidx_bounds(dim.x as int, dim.y as int, px, py);
        }
        r
    }

    pub fn size(&self) -> (p: Pos)
        ensures
            p == self.spec_size(),
    {
        self.size
    }

    /// The cell at `pos`, or `None` when `pos` is past the right or bottom edge.
    pub fn get(&self, pos: Pos) -> (r: Option<&Cell>)
        requires
            self.wf(),
            pos.x >= 0,
            pos.y >= 0,
        ensures
            match r {
                Some(c) => pos.x < self.width() && pos.y < self.height() && *c == self.rows()[pos.y as int][pos.x as int],
                None => !(pos.x < self.width() && pos.y < self.height()),
            },
    {
        if pos.y >= self.size.y || pos.x >= self.size.x {
            None
        } else {
            let i = self.index(pos.x as usize + 1, pos.y as usize + 1);
            Some(&self.grid[i])
        }
    }

    /// Replace the cell at `pos`, returning the old one.
    pub fn insert(&mut self, pos: Pos, new_cell: Cell) -> (r: Option<Cell>)
        requires
            old(self).wf(),
            0 <= pos.x < old(self).width(),
            0 <= pos.y < old(self).height(),
        ensures
            final(self).wf(),
            final(self).spec_size() == old(self).spec_size(),
            r == Some(old(self).rows()[pos.y as int][pos.x as int]),
            final(self).rows() == old(self).rows().update(
                pos.y as int,
                old(self).rows()[pos.y as int].update(pos.x as int, new_cell),
            ),
    {
        let i = self.index(pos.x as usize + 1, pos.y as usize + 1);
        let old_cell = self.grid[i];
        self.grid.set(i, new_cell);
        proof {
            let w = self.width();
            let h = self.height();
            assert forall|px: int, py: int|
                0 <= px < w + 2 && 0 <= py < h + 2 && (px == 0 || py == 0 || px == w + 1 || py == h
                    + 1) implies #[trigger] self.padded(px, py) == dead_cell() by {
                lemma_pidx_bounds(w, h, px, py);
                if pidx(w, px, py) == i {
                    lemma_pidx_inj(w, px, py, pos.x + 1, pos.y + 1);
                }
                assert(old(self).padded(px, py) == dead_cell());
            }
            assert(self.rows() =~~= old(self).rows().update(
                pos.y as int,
                old(self).rows()[pos.y as int].update(pos.x as int, new_cell),
            )) by {
                assert forall|y: int, x: int| 0 <= y < h && 0 <= x < w implies #[trigger] self.padded(
                    x + 1,
                    y + 1,
                ) == (if y == pos.y && x == pos.x {
                    new_cell
                } else {
                    old(self).padded(x + 1, y + 1)
                }) by {
                    lemma_pidx_bounds(w, h, x + 1, y + 1);
                    if pidx(w, x + 1, y + 1) == i {
                        lemma_pidx_inj(w, x + 1, y + 1, pos.x + 1, pos.y + 1);
                    }
                }
            }
        }
        Some(old_cell)
    }

    /// `(count, faction)` of the neighbours of the padded position `pos`, voted clockwise
    /// starting from `faction`.
    pub fn neighbors(&self, faction: u8, pos: Pos) -> (r: (u8, u8))
        requires
            self.wf(),
            1 <= pos.x <= self.width(),
            1 <= pos.y <= self.height(),
        ensures
            r == vote((0u8, faction), ring_cells(self.rows(), pos.x - 1, pos.y - 1)),
    {
        let x = pos.x as usize;
        let y = pos.y as usize;
        let ghost rows = self.rows();
        let ghost gx = pos.x - 1;
        let ghost gy = pos.y - 1;
        proof {
            self.lemma_padded(x - 1, y - 1);
            self.lemma_padded(x as int, y - 1);
            self.lemma_padded(x + 1, y - 1);
            self.lemma_padded(x + 1, y as int);
            self.lemma_padded(x + 1, y + 1);
            self.lemma_padded(x as int, y + 1);
            self.lemma_padded(x - 1, y + 1);
            self.lemma_padded(x - 1, y as int);
        }
        let ghost ring = ring_cells(rows, gx, gy);
        let a0 = (0u8, faction);
        let a1 = vote_step_exec(a0, self.grid[self.index(x - 1, y - 1)]);
        let a2 = vote_step_exec(a1, self.grid[self.index(x, y - 1)]);
        let a3 = vote_step_exec(a2, self.grid[self.index(x + 1, y - 1)]);
        let a4 = vote_step_exec(a3, self.grid[self.index(x + 1, y)]);
        let a5 = vote_step_exec(a4, self.grid[self.index(x + 1, y + 1)]);
        let a6 = vote_step_exec(a5, self.grid[self.index(x, y + 1)]);
        let a7 = vote_step_exec(a6, self.grid[self.index(x - 1, y + 1)]);
        let a8 = vote_step_exec(a7, self.grid[self.index(x - 1, y)]);
        proof {
            reveal_with_fuel(vote, 9);
            assert(ring.drop_last().drop_last().drop_last().drop_last().drop_last().drop_last().drop_last().drop_last() =~= Seq::<Cell>::empty());
        }
        a8
    }
}

/// A population count as the `i16` a population table holds (clamped).
pub open spec fn pop_clamp(n: nat) -> i16 {
    if n > 32767 {
        32767
    } else {
        n as i16
    }
}

pub proof fn lemma_pop_clamp_step(n: nat)
    ensures
        pop_clamp(n + 1) == clamp_i16(pop_clamp(n) + 1),
{
}

pub proof fn lemma_pop_seq_take(s: Seq<Cell>, k: int, f: u8)
    requires
        0 <= k < s.len(),
    ensures
        pop_seq(s.take(k + 1), f) == pop_seq(s.take(k), f) + if s[k].spec_is_alive()
            && s[k].spec_faction() == f {
            1nat
        } else {
            0nat
        },
{
    assert(s.take(k + 1).drop_last() =~= s.take(k));
}

pub proof fn lemma_pop_rows_take(r: Rows, k: int, f: u8)
    requires
        0 <= k < r.len(),
    ensures
        pop_rows(r.take(k + 1), f) == pop_rows(r.take(k), f) + pop_seq(r[k], f),
{
    assert(r.take(k + 1).drop_last() =~= r.take(k));
}

/// A copy of `v`.
pub fn copy_cells(v: &Vec<Cell>) -> (r: Vec<Cell>)
    ensures
        r@ == v@,
{
    let mut r: Vec<Cell> = Vec::new();
    let mut i: usize = 0;
    while i < v.len()
        invariant
            i <= v.len(),
            r@ == v@.take(i as int),
        decreases v.len() - i,
    {
        r.push(v[i]);
        assert(v@.take(i + 1) =~= v@.take(i as int).push(v@[i as int]));
        i = i + 1;
    }
    assert(v@.take(v.len() as int) =~= v@);
    r
}

impl LifeBasic {
    /// Advance one generation under `rule`: every cell becomes `next_cell` of the old grid,
    /// and `pops` is recounted from the new grid.
    pub fn update(&mut self, rule: &LifeRule, pops: &mut LifePops)
        requires
            old(self).wf(),
            states_valid(old(self).rows()),
        ensures
            final(self).wf(),
            final(self).spec_size() == old(self).spec_size(),
            final(self).rows() == next_rows(
                *rule,
                old(self).rows(),
                old(self).width(),
                old(self).height(),
            ),
            forall|f: u8| f < 16 ==> #[trigger] final(pops).view()[f as int] == pop_clamp(pop_rows(final(self).rows(), f)),
    {
        let w: i16 = self.size.x;
        let h: i16 = self.size.y;
        let ghost rows = self.rows();
        let ghost next = next_rows(*rule, rows, w as int, h as int);
        let ghost gw = w as int;
        let ghost gh = h as int;
        let mut new_pops = LifePops::new();
        let mut new_grid = copy_cells(&self.grid);
        let mut y: i16 = 1;
        while y <= h
            invariant
                self.wf(),
                self.rows() == rows,
                w == self.size.x,
                h == self.size.y,
                gw == w,
                gh == h,
                next == next_rows(*rule, rows, gw, gh),
                states_valid(rows),
                1 <= y <= h + 1,
                new_grid@.len() == self.grid@.len(),
                forall|px: int, py: int|
                    0 <= px < gw + 2 && 0 <= py < gh + 2 ==> #[trigger] new_grid@[pidx(gw, px, py)] == if 1
                        <= px <= gw && 1 <= py < y {
                        next[py - 1][px - 1]
                    } else {
                        self.padded(px, py)
                    },
                forall|f: u8| f < 16 ==> #[trigger] new_pops.view()[f as int] == pop_clamp(pop_rows(next.take(y - 1), f)),
            decreases h + 1 - y,
        {
            let mut x: i16 = 1;
            while x <= w
                invariant
                    self.wf(),
                    self.rows() == rows,
                    w == self.size.x,
                    h == self.size.y,
                    gw == w,
                    gh == h,
                    next == next_rows(*rule, rows, gw, gh),
                    states_valid(rows),
                    1 <= y <= h,
                    1 <= x <= w + 1,
                    new_grid@.len() == self.grid@.len(),
                    forall|px: int, py: int|
                        0 <= px < gw + 2 && 0 <= py < gh + 2 ==> #[trigger] new_grid@[pidx(gw, px, py)] == if 1
                            <= px <= gw && 1 <= py <= gh && (py < y || (py == y && px < x)) {
                            next[py - 1][px - 1]
                        } else {
                            self.padded(px, py)
                        },
                    forall|f: u8| f < 16 ==> #[trigger] new_pops.view()[f as int] == pop_clamp(
                        pop_rows(next.take(y - 1), f) + pop_seq(next[y - 1].take(x - 1), f),
                    ),
                decreases w + 1 - x,
            {
                let i = self.index(x as usize, y as usize);
                let cell = self.grid[i];
                proof {
                    self.lemma_padded(x as int, y as int);
                    assert(rows[y - 1][x - 1].spec_state() < 4);
                    lemma_vote_bound((0u8, cell.spec_faction()), ring_cells(rows, x - 1, y - 1));
                }
                let nb = self.neighbors(cell.get_faction(), Pos { x, y });
                let new_cell = rule.update(cell.get_state(), nb);
                assert(new_cell == next[y - 1][x - 1]);
                let ghost before = new_pops.view();
                if new_cell.is_alive() {
                    new_pops.add(new_cell.get_faction(), 1);
                }
                proof {
                    assert forall|f: u8| f < 16 implies #[trigger] new_pops.view()[f as int] == pop_clamp(
                        pop_rows(next.take(y - 1), f) + pop_seq(next[y - 1].take(x as int), f),
                    ) by {
                        lemma_pop_seq_take(next[y - 1], x - 1, f);
                        lemma_pop_clamp_step(pop_rows(next.take(y - 1), f) + pop_seq(next[y - 1].take(x - 1), f));
                        assert(before[f as int] == pop_clamp(
                            pop_rows(next.take(y - 1), f) + pop_seq(next[y - 1].take(x - 1), f),
                        ));
                    }
                }
                new_grid.set(i, new_cell);
                proof {
                    assert forall|px: int, py: int|
                        0 <= px < gw + 2 && 0 <= py < gh + 2 implies #[trigger] new_grid@[pidx(gw, px, py)] == if 1
                            <= px <= gw && 1 <= py <= gh && (py < y || (py == y && px < x + 1)) {
                            next[py - 1][px - 1]
                        } else {
                            self.padded(px, py)
                        } by {
                        lemma_pidx_bounds(gw, gh, px, py);
                        if pidx(gw, px, py) == i {
                            lemma_pidx_inj(gw, px, py, x as int, y as int);
                        }
                    }
                }
                x = x + 1;
            }
            proof {
                assert forall|f: u8| f < 16 implies #[trigger] new_pops.view()[f as int] == pop_clamp(pop_rows(next.take(y as int), f)) by {
                    lemma_pop_rows_take(next, y - 1, f);
                    assert(next[y - 1].take(w as int) =~= next[y - 1]);
                }
            }
            y = y + 1;
        }
        self.grid = new_grid;
        *pops = new_pops;
        proof {
            assert(next.take(gh) =~= next);
            assert(self.rows() =~~= next) by {
                assert forall|yy: int, xx: int| 0 <= yy < gh && 0 <= xx < gw implies #[trigger] self.padded(
                    xx + 1,
                    yy + 1,
                ) == next[yy][xx] by {}
            }
            assert forall|px: int, py: int|
                0 <= px < gw + 2 && 0 <= py < gh + 2 && (px == 0 || py == 0 || px == gw + 1 || py
                    == gh + 1) implies #[trigger] self.padded(px, py) == dead_cell() by {
                assert(new_grid@[pidx(gw, px, py)] == old(self).padded(px, py));
            }
        }
    }
}

/// One step of the neighbour vote (see `vote_step`), for counts below 255.
pub fn vote_step_exec(acc: (u8, u8), c: Cell) -> (r: (u8, u8))
    requires
        acc.0 < 255,
    ensures
        r == vote_step(acc, c),
{
    if c.is_alive() {
        if c.get_faction() == acc.1 {
            (acc.0 + 1, acc.1)
        } else if acc.0 > 0 {
            (acc.0 - 1, acc.1)
        } else {
            (1, c.get_faction())
        }
    } else {
        acc
    }
}

} // verus!
