use vstd::prelude::*;

use super::basic::{max_dim, pop_clamp};
use crate::life::grid::{
    cidx, in_grid, lemma_cidx_bounds, lemma_cidx_inj, neighbor_offset, rows_wf, window_offset, Rows,
};
use crate::life::pos::{clamp_i16, Pos};
use crate::life::{cell_of, dead_cell, group_cell, packed, Cell, LifePops, LifeRule};

verus! {

broadcast use group_cell;

/// A cached grid: each cell with its cached neighbour count.
pub type CGrid = Seq<(Cell, i8)>;

/// The state a cached step works on: the grid, the list of changed positions, and the
/// population table.
pub type CState = (CGrid, Seq<Pos>, Seq<i16>);

/// One neighbour-count adjustment of `update_neighbors`: a change of `a` made by a cell of
/// `faction` counts positively for a cell of the same faction and negatively otherwise;
/// a count that turns negative is negated and the cell's faction flipped (`^ 1`).
/// `None` where the `i8` arithmetic would overflow.
pub open spec fn bump(e: (Cell, i8), faction: u8, a: int) -> Option<(Cell, i8)> {
    let n = if e.0.spec_faction() != faction {
        e.1 - a
    } else {
        e.1 + a
    };
    if n < -128 || n > 127 {
        None
    } else if n < 0 {
        if n == -128 {
            None
        } else {
            Some(
                (
                    cell_of((e.0.spec_value() & 0xF) | (((e.0.spec_faction() ^ 1u8) << 4u8) as u8)),
                    (-n) as i8,
                ),
            )
        }
    } else {
        Some((e.0, n as i8))
    }
}

/// `update_neighbors` over the first `k` neighbours of `(x, y)`.
pub open spec fn bump_neighbors(
    g: CGrid,
    w: int,
    h: int,
    faction: u8,
    a: int,
    x: int,
    y: int,
    k: nat,
) -> Option<CGrid>
    decreases k,
{
    if k == 0 {
        Some(g)
    } else {
        match bump_neighbors(g, w, h, faction, a, x, y, (k - 1) as nat) {
            None => None,
            Some(g1) => {
                let d = neighbor_offset(k - 1);
                let nx = x + d.0;
                let ny = y + d.1;
                if in_grid(w, h, nx, ny) {
                    match bump(g1[cidx(w, nx, ny)], faction, a) {
                        None => None,
                        Some(e) => Some(g1.update(cidx(w, nx, ny), e)),
                    }
                } else {
                    Some(g1)
                }
            },
        }
    }
}

/// Recheck one cell `(nx, ny)` against the grid `old` of the previous generation.
pub open spec fn check_one(old: CGrid, st: CState, w: int, h: int, rule: LifeRule, nx: int, ny: int) -> Option<
    CState,
> {
    if !in_grid(w, h, nx, ny) {
        Some(st)
    } else {
        let o = old[cidx(w, nx, ny)];
        if o.0.spec_state() >= 4 || o.1 < 0 || o.1 >= 16 {
            None
        } else {
            let nc = rule.spec_update(o.0.spec_state(), o.1 as u8, o.0.spec_faction());
            let cur = st.0[cidx(w, nx, ny)];
            if nc == cur.0 {
                Some(st)
            } else {
                let ups = st.1.push(Pos { x: nx as i16, y: ny as i16 });
                let g1 = st.0.update(cidx(w, nx, ny), (nc, cur.1));
                if nc.spec_is_alive() != cur.0.spec_is_alive() {
                    let a: int = if nc.spec_is_alive() {
                        1
                    } else {
                        -1
                    };
                    let f = nc.spec_faction();
                    let pops = st.2.update(f as int, clamp_i16(st.2[f as int] + a));
                    match bump_neighbors(g1, w, h, f, a, nx, ny, 8) {
                        None => None,
                        Some(g2) => Some((g2, ups, pops)),
                    }
                } else {
                    Some((g1, ups, st.2))
                }
            }
        }
    }
}

/// `check_cell_and_neighbors` over the first `k` cells of the window around `(x, y)`.
pub open spec fn check_window(old: CGrid, st: CState, w: int, h: int, rule: LifeRule, x: int, y: int, k: nat) -> Option<
    CState,
>
    decreases k,
{
    if k == 0 {
        Some(st)
    } else {
        match check_window(old, st, w, h, rule, x, y, (k - 1) as nat) {
            None => None,
            Some(s1) => {
                let d = window_offset(k - 1);
                check_one(old, s1, w, h, rule, x + d.0, y + d.1)
            },
        }
    }
}

/// Recheck the windows around each position of `ups`, in order.
pub open spec fn check_all(old: CGrid, st: CState, w: int, h: int, rule: LifeRule, ups: Seq<Pos>) -> Option<CState>
    decreases ups.len(),
{
    if ups.len() == 0 {
        Some(st)
    } else {
        match check_all(old, st, w, h, rule, ups.drop_last()) {
            None => None,
            Some(s1) => check_window(old, s1, w, h, rule, ups.last().x as int, ups.last().y as int, 9),
        }
    }
}

/// One generation of the cached algorithm, from grid `g`, changed positions `ups` and
/// populations `pops`; `None` where the step would overflow a count or index a rule table out
/// of range.
pub open spec fn cached_step(g: CGrid, ups: Seq<Pos>, pops: Seq<i16>, w: int, h: int, rule: LifeRule) -> Option<
    CState,
> {
    check_all(g, (g, Seq::empty(), pops), w, h, rule, ups)
}

/// Setting the cell at `(x, y)` to `c` in the cached grid; `None` on overflow.
pub open spec fn cached_insert(g: CGrid, ups: Seq<Pos>, w: int, h: int, pos: Pos, c: Cell) -> Option<(CGrid, Seq<Pos>)> {
    if !in_grid(w, h, pos.x as int, pos.y as int) {
        Some((g, ups))
    } else {
        let i = cidx(w, pos.x as int, pos.y as int);
        let cur = g[i];
        if c == cur.0 {
            Some((g, ups))
        } else {
            let g1 = g.update(i, (c, cur.1));
            if c.spec_is_alive() != cur.0.spec_is_alive() {
                match bump_neighbors(
                    g1,
                    w,
                    h,
                    c.spec_faction(),
                    if c.spec_is_alive() {
                        1
                    } else {
                        -1
                    },
                    pos.x as int,
                    pos.y as int,
                    8,
                ) {
                    None => None,
                    Some(g2) => Some((g2, ups.push(pos))),
                }
            } else {
                Some((g1, ups.push(pos)))
            }
        }
    }
}

pub proof fn lemma_bump_prefix(g: CGrid, w: int, h: int, f: u8, a: int, x: int, y: int, j: nat, k: nat)
    requires
        j <= k,
        bump_neighbors(g, w, h, f, a, x, y, k) is Some,
    ensures
        bump_neighbors(g, w, h, f, a, x, y, j) is Some,
    decreases k - j,
{
    if j < k {
        lemma_bump_prefix(g, w, h, f, a, x, y, j + 1, k);
    }
}

pub proof fn lemma_window_prefix(old: CGrid, st: CState, w: int, h: int, rule: LifeRule, x: int, y: int, j: nat, k: nat)
    requires
        j <= k,
        check_window(old, st, w, h, rule, x, y, k) is Some,
    ensures
        check_window(old, st, w, h, rule, x, y, j) is Some,
    decreases k - j,
{
    if j < k {
        lemma_window_prefix(old, st, w, h, rule, x, y, j + 1, k);
    }
}

pub proof fn lemma_all_prefix(old: CGrid, st: CState, w: int, h: int, rule: LifeRule, ups: Seq<Pos>, j: int)
    requires
        0 <= j <= ups.len(),
        check_all(old, st, w, h, rule, ups) is Some,
    ensures
        check_all(old, st, w, h, rule, ups.take(j)) is Some,
    decreases ups.len() - j,
{
    if j < ups.len() {
        lemma_all_prefix(old, st, w, h, rule, ups.drop_last(), j);
        assert(ups.drop_last().take(j) =~= ups.take(j));
    } else {
        assert(ups.take(j) =~= ups);
    }
}

/// Incremental stepping: neighbour counts are cached per cell and only the neighbourhoods
/// of cells that changed last generation are rechecked.
#[derive(PartialEq, Eq, Debug, Clone)]
pub struct LifeCached {
    size: Pos,
    grid: Vec<(Cell, i8)>,
    old_grid: Vec<(Cell, i8)>,
    recent_updates: Vec<Pos>,
    old_updates: Vec<Pos>,
}

impl LifeCached {
    pub closed spec fn spec_size(self) -> Pos {
        self.size
    }

    pub closed spec fn width(self) -> int {
        self.size.x as int
    }

    pub closed spec fn height(self) -> int {
        self.size.y as int
    }

    /// The cells with their cached counts, row by row, flattened.
    pub closed spec fn cgrid(self) -> CGrid {
        self.grid@
    }

    /// The positions changed since the last generation (the next to be rechecked).
    pub closed spec fn updates(self) -> Seq<Pos> {
        self.recent_updates@
    }

    pub closed spec fn wf(self) -> bool {
        &&& 0 <= self.size.x <= max_dim()
        &&& 0 <= self.size.y <= max_dim()
        &&& self.grid@.len() == self.width() * self.height()
        &&& self.old_grid@.len() == self.width() * self.height()
        &&& forall|i: int|
            0 <= i < self.recent_updates@.len() ==> in_grid(
                self.width(),
                self.height(),
                (#[trigger] self.recent_updates@[i]).x as int,
                self.recent_updates@[i].y as int,
            )
    }

    /// The cells, row by row.
    pub open spec fn rows(self) -> Rows {
        cgrid_rows(self.cgrid(), self.width(), self.height())
    }

    /// The size is within bounds, and the width and height are its coordinates.
    pub proof fn lemma_bounds(self)
        requires
            self.wf(),
        ensures
            0 <= self.spec_size().x <= max_dim(),
            0 <= self.spec_size().y <= max_dim(),
            self.width() == self.spec_size().x as int,
            self.height() == self.spec_size().y as int,
    {
    }

    pub proof fn lemma_rows_wf(self)
        requires
            self.wf(),
        ensures
            rows_wf(self.rows(), self.spec_size().x as int, self.spec_size().y as int),
    {
    }

    /// An empty grid of `dim.x` by `dim.y` cells with no pending changes.
    pub fn new(dim: Pos) -> (r: Self)
        requires
            0 <= dim.x <= max_dim(),
            0 <= dim.y <= max_dim(),
        ensures
            r.wf(),
            r.spec_size() == dim,
            r.cgrid() == Seq::new((dim.x * dim.y) as nat, |i: int| (dead_cell(), 0i8)),
            r.updates() == Seq::<Pos>::empty(),
    {
        let w: usize = dim.x as usize;
        let h: usize = dim.y as usize;
        assert(w * h <= 32767 * 32767) by (nonlinear_arith)
            requires
                w <= 32767,
                h <= 32767,
        ;
        let n: usize = w * h;
        let dead = Cell::new(0, 0);
        assert(packed(0, 0) == 0) by (bit_vector);
        let mut grid: Vec<(Cell, i8)> = Vec::new();
        let mut i: usize = 0;
        while i < n
            invariant
                i <= n,
                dead == dead_cell(),
                grid@ =~= Seq::new(i as nat, |j: int| (dead_cell(), 0i8)),
            decreases n - i,
        {
            grid.push((dead, 0i8));
            i = i + 1;
        }
        let old_grid = copy_grid(&grid);
        Self { size: dim, grid, old_grid, recent_updates: Vec::new(), old_updates: Vec::new() }
    }

    pub fn size(&self) -> (p: Pos)
        ensures
            p == self.spec_size(),
    {
        self.size
    }

    fn index(&self, x: i16, y: i16) -> (i: usize)
        requires
            self.wf(),
            in_grid(self.width(), self.height(), x as int, y as int),
        ensures
            i == cidx(self.width(), x as int, y as int),
            i < self.grid@.len(),
    {
        proof {
            lemma_cidx_bounds(self.width(), self.height(), x as int, y as int);
        }
        let len = self.grid.len();
        let stride: usize = self.size.x as usize;
        assert(y * stride == y * self.width());
        assert(y * stride + x < len);
        let row: usize = y as usize * stride;
        row + x as usize
    }

    /// The cell at `pos`, or `None` outside the grid.
    pub fn get(&self, pos: Pos) -> (r: Option<&Cell>)
        requires
            self.wf(),
        ensures
            match r {
                Some(c) => in_grid(self.width(), self.height(), pos.x as int, pos.y as int) && *c
                    == self.cgrid()[cidx(self.width(), pos.x as int, pos.y as int)].0,
                None => !in_grid(self.width(), self.height(), pos.x as int, pos.y as int),
            },
    {
        if pos.x < 0 || pos.y < 0 || pos.x >= self.size.x || pos.y >= self.size.y {
            None
        } else {
            let i = self.index(pos.x, pos.y);
            Some(&self.grid[i].0)
        }
    }

    /// The positions changed since the last generation, in the order they changed.
    pub fn recent_updates(&self) -> (r: &Vec<Pos>)
        ensures
            r@ == self.updates(),
    {
        &self.recent_updates
    }

    /// The cached `(count, faction)` of the cell at `pos`.
    pub fn neighbors_cached(&self, pos: (usize, usize)) -> (r: (u8, u8))
        requires
            self.wf(),
            pos.0 < self.width(),
            pos.1 < self.height(),
        ensures
            r.0 == self.cgrid()[cidx(self.width(), pos.0 as int, pos.1 as int)].1 as u8,
            r.1 == self.cgrid()[cidx(self.width(), pos.0 as int, pos.1 as int)].0.spec_faction(),
    {
        let i = self.index(pos.0 as i16, pos.1 as i16);
        let thing = self.grid[i];
        (thing.1 as u8, thing.0.get_faction())
    }
}

/// `(dx, dy)` of the `k`-th neighbour (`neighbor_offset`).
fn neighbor_offset_exec(k: usize) -> (r: (i32, i32))
    requires
        k < 8,
    ensures
        r.0 == neighbor_offset(k as int).0,
        r.1 == neighbor_offset(k as int).1,
{
    let j: i32 = if k < 4 {
        k as i32
    } else {
        k as i32 + 1
    };
    (j % 3 - 1, j / 3 - 1)
}

/// `(dx, dy)` of the `j`-th cell of the window (`window_offset`).
fn window_offset_exec(j: usize) -> (r: (i32, i32))
    requires
        j < 9,
    ensures
        r.0 == window_offset(j as int).0,
        r.1 == window_offset(j as int).1,
{
    let j: i32 = j as i32;
    (j % 3 - 1, j / 3 - 1)
}

/// Index of an in-grid position.
fn grid_index(len: usize, w: i16, h: i16, x: i32, y: i32) -> (i: usize)
    requires
        0 <= w,
        0 <= h,
        len == w * h,
        in_grid(w as int, h as int, x as int, y as int),
    ensures
        i == cidx(w as int, x as int, y as int),
        i < len,
{
    proof {
        lemma_cidx_bounds(w as int, h as int, x as int, y as int);
    }
    let stride: usize = w as usize;
    assert(y * stride == y * w);
    assert(y * stride + x < len);
    let row: usize = y as usize * stride;
    row + x as usize
}

/// Add `amount` (of a cell of `faction`) to the cached counts of the neighbours of `pos`.
fn update_neighbors(grid: &mut Vec<(Cell, i8)>, w: i16, h: i16, faction: u8, amount: i8, pos: Pos)
    requires
        0 <= w <= max_dim(),
        0 <= h <= max_dim(),
        old(grid)@.len() == w * h,
        amount == 1 || amount == -1,
        bump_neighbors(old(grid)@, w as int, h as int, faction, amount as int, pos.x as int, pos.y as int, 8) is Some,
    ensures
        final(grid)@ == bump_neighbors(
            old(grid)@,
            w as int,
            h as int,
            faction,
            amount as int,
            pos.x as int,
            pos.y as int,
            8,
        )->0,
        final(grid)@.len() == old(grid)@.len(),
{
    let ghost g0 = grid@;
    let mut k: usize = 0;
    while k < 8
        invariant
            0 <= w <= max_dim(),
            0 <= h <= max_dim(),
            k <= 8,
            grid@.len() == w * h,
            amount == 1 || amount == -1,
            bump_neighbors(g0, w as int, h as int, faction, amount as int, pos.x as int, pos.y as int, 8) is Some,
            bump_neighbors(g0, w as int, h as int, faction, amount as int, pos.x as int, pos.y as int, k as nat)
                == Some(grid@),
            g0.len() == w * h,
        decreases 8 - k,
    {
        proof {
            lemma_bump_prefix(g0, w as int, h as int, faction, amount as int, pos.x as int, pos.y as int, (k + 1) as nat, 8);
        }
        let d = neighbor_offset_exec(k);
        let nx: i32 = pos.x as i32 + d.0;
        let ny: i32 = pos.y as i32 + d.1;
        if nx >= 0 && ny >= 0 && nx < w as i32 && ny < h as i32 {
            let len = grid.len();
            let i = grid_index(len, w, h, nx, ny);
            let e = grid[i];
            let mut cell = e.0;
            let ghost target = bump(e, faction, amount as int);
            let n: i16 = if cell.get_faction() != faction {
                e.1 as i16 - amount as i16
            } else {
                e.1 as i16 + amount as i16
            };
            let mut neigh: i8 = n as i8;
            if neigh < 0 {
                neigh = -neigh;
                let f = cell.get_faction();
                cell.set_faction(f ^ 1);
            }
            grid.set(i, (cell, neigh));
            assert(Some(grid@) == bump_neighbors(g0, w as int, h as int, faction, amount as int, pos.x as int, pos.y as int, (k + 1) as nat));
        }
        k = k + 1;
    }
}

impl LifeCached {
    /// Recheck the window around `pos` against `old_grid`, recording changed cells in
    /// `updates`, adjusting `pops` and the cached counts.
    fn check_cell_and_neighbors(
        size: Pos,
        old_grid: &Vec<(Cell, i8)>,
        new_grid: &mut Vec<(Cell, i8)>,
        updates: &mut Vec<Pos>,
        pos: Pos,
        rule: &LifeRule,
        pops: &mut LifePops,
    )
        requires
            0 <= size.x <= max_dim(),
            0 <= size.y <= max_dim(),
            old_grid@.len() == size.x * size.y,
            old(new_grid)@.len() == size.x * size.y,
            in_grid(size.x as int, size.y as int, pos.x as int, pos.y as int),
            forall|i: int| 0 <= i < old(updates)@.len() ==> in_grid(size.x as int, size.y as int, (#[trigger] old(updates)@[i]).x as int, old(updates)@[i].y as int),
            check_window(old_grid@, (old(new_grid)@, old(updates)@, old(pops).view()), size.x as int, size.y as int, *rule, pos.x as int, pos.y as int, 9) is Some,
        ensures
            (final(new_grid)@, final(updates)@, final(pops).view()) == check_window(
                old_grid@,
                (old(new_grid)@, old(updates)@, old(pops).view()),
                size.x as int,
                size.y as int,
                *rule,
                pos.x as int,
                pos.y as int,
                9,
            )->0,
            forall|i: int| 0 <= i < final(updates)@.len() ==> in_grid(size.x as int, size.y as int, (#[trigger] final(updates)@[i]).x as int, final(updates)@[i].y as int),
            final(new_grid)@.len() == size.x * size.y,
    {
        let w = size.x;
        let h = size.y;
        let ghost st0 = (new_grid@, updates@, pops.view());
        let mut j: usize = 0;
        while j < 9
            invariant
                0 <= w <= max_dim(),
                0 <= h <= max_dim(),
                w == size.x,
                h == size.y,
                j <= 9,
                old_grid@.len() == w * h,
                new_grid@.len() == w * h,
                in_grid(w as int, h as int, pos.x as int, pos.y as int),
                forall|i: int| 0 <= i < updates@.len() ==> in_grid(w as int, h as int, (#[trigger] updates@[i]).x as int, updates@[i].y as int),
                check_window(old_grid@, st0, w as int, h as int, *rule, pos.x as int, pos.y as int, 9) is Some,
                check_window(old_grid@, st0, w as int, h as int, *rule, pos.x as int, pos.y as int, j as nat)
                    == Some((new_grid@, updates@, pops.view())),
            decreases 9 - j,
        {
            proof {
                lemma_window_prefix(old_grid@, st0, w as int, h as int, *rule, pos.x as int, pos.y as int, (j + 1) as nat, 9);
            }
            let d = window_offset_exec(j);
            let px: i32 = pos.x as i32 + d.0;
            let py: i32 = pos.y as i32 + d.1;
            if px >= 0 && py >= 0 && px < w as i32 && py < h as i32 {
                let len = old_grid.len();
                let i = grid_index(len, w, h, px, py);
                let old = old_grid[i];
                let new_cell = rule.update(old.0.get_state(), (old.1 as u8, old.0.get_faction()));
                let cur = new_grid[i];
                if new_cell != cur.0 {
                    let new_pos = Pos { x: px as i16, y: py as i16 };
                    updates.push(new_pos);
                    let alive_changed = new_cell.is_alive() != cur.0.is_alive();
                    new_grid.set(i, (new_cell, cur.1));
                    if alive_changed {
                        let amount: i8 = if new_cell.is_alive() {
                            1
                        } else {
                            -1
                        };
                        pops.add(new_cell.get_faction(), amount as i16);
                        update_neighbors(new_grid, w, h, new_cell.get_faction(), amount, new_pos);
                    }
                }
            }
            j = j + 1;
        }
    }

    /// Set the cell at `pos` (outside the grid: no effect), recording the change and
    /// adjusting the neighbours' cached counts. Returns the old cell (`None` outside).
    pub fn insert(&mut self, pos: Pos, new_cell: Cell) -> (r: Option<Cell>)
        requires
            old(self).wf(),
            cached_insert(old(self).cgrid(), old(self).updates(), old(self).width(), old(self).height(), pos, new_cell) is Some,
        ensures
            final(self).wf(),
            final(self).spec_size() == old(self).spec_size(),
            r == (if in_grid(old(self).width(), old(self).height(), pos.x as int, pos.y as int) {
                Some(old(self).cgrid()[cidx(old(self).width(), pos.x as int, pos.y as int)].0)
            } else {
                None::<Cell>
            }),
            Some((final(self).cgrid(), final(self).updates())) == cached_insert(
                old(self).cgrid(),
                old(self).updates(),
                old(self).width(),
                old(self).height(),
                pos,
                new_cell,
            ),
    {
        if pos.x < 0 || pos.y < 0 || pos.x >= self.size.x || pos.y >= self.size.y {
            return None;
        }
        let i = self.index(pos.x, pos.y);
        let cur = self.grid[i];
        if new_cell == cur.0 {
            return Some(cur.0);
        }
        self.recent_updates.push(pos);
        let alive_changed = new_cell.is_alive() != cur.0.is_alive();
        self.grid.set(i, (new_cell, cur.1));
        if alive_changed {
            let amount: i8 = if new_cell.is_alive() {
                1
            } else {
                -1
            };
            update_neighbors(&mut self.grid, self.size.x, self.size.y, new_cell.get_faction(), amount, pos);
        }
        Some(cur.0)
    }

    /// Advance one generation: recheck the windows around every position changed last
    /// generation (see `cached_step`).
    pub fn update(&mut self, rule: &LifeRule, pops: &mut LifePops)
        requires
            old(self).wf(),
            cached_step(old(self).cgrid(), old(self).updates(), old(pops).view(), old(self).width(), old(self).height(), *rule) is Some,
        ensures
            final(self).wf(),
            final(self).spec_size() == old(self).spec_size(),
            Some((final(self).cgrid(), final(self).updates(), final(pops).view())) == cached_step(
                old(self).cgrid(),
                old(self).updates(),
                old(pops).view(),
                old(self).width(),
                old(self).height(),
                *rule,
            ),
    {
        self.old_grid = copy_grid(&self.grid);
        std::mem::swap(&mut self.recent_updates, &mut self.old_updates);
        self.recent_updates.clear();
        let ghost g0 = self.grid@;
        let ghost st0: CState = (g0, Seq::empty(), pops.view());
        let ghost ups = self.old_updates@;
        let n = self.old_updates.len();
        let mut i: usize = 0;
        while i < n
            invariant
                self.wf(),
                self.old_grid@ == g0,
                self.old_updates@ == ups,
                self.size == old(self).size,
                n == ups.len(),
                i <= n,
                forall|k: int| 0 <= k < ups.len() ==> in_grid(self.width(), self.height(), (#[trigger] ups[k]).x as int, ups[k].y as int),
                check_all(g0, st0, self.width(), self.height(), *rule, ups) is Some,
                check_all(g0, st0, self.width(), self.height(), *rule, ups.take(i as int)) == Some((self.grid@, self.recent_updates@, pops.view())),
            decreases n - i,
        {
            let p = self.old_updates[i];
            proof {
                lemma_all_prefix(g0, st0, self.width(), self.height(), *rule, ups, i + 1);
                assert(ups.take(i + 1).drop_last() =~= ups.take(i as int));
            }
            Self::check_cell_and_neighbors(self.size, &self.old_grid, &mut self.grid, &mut self.recent_updates, p, rule, pops);
            i = i + 1;
        }
        assert(ups.take(n as int) =~= ups);
    }
}

/// The cells of a cached grid, row by row.
pub open spec fn cgrid_rows(g: CGrid, w: int, h: int) -> Rows {
    Seq::new(h as nat, |y: int| Seq::new(w as nat, |x: int| g[cidx(w, x, y)].0))
}

/// A copy of `v`.
fn copy_grid(v: &Vec<(Cell, i8)>) -> (r: Vec<(Cell, i8)>)
    ensures
        r@ == v@,
{
    let mut r: Vec<(Cell, i8)> = Vec::new();
    let mut i: usize = 0;
    while i < v.len()
        invariant
            i <= v.len(),
            r@ == v@.take(i as int),
        decreases v.len() - i,
    {
        r.push(v[i]);
        assert(v@.take(i + 1) =~= v@.take(i as int).push(v@[i as int]));
        i = i + 1;
    }
    assert(v@.take(v.len() as int) =~= v@);
    r
}

} // verus!
