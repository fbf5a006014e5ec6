use vstd::prelude::*;

use std::hash::DefaultHasher;
use std::hash::Hasher;
use vstd::std_specs::hash::DefaultHasherAdditionalSpecFns;

use super::algo::basic::{max_dim, pop_clamp};
use super::algo::dead_rows;
use super::grid::{cell_at, pop_rows, pop_seq, rows_wf, Rows};
use super::pos::{in_i16, Pos};
use super::{
    cell_of, dead_cell, lemma_counted_fill, lemma_dead_cell, lemma_packed_faction, packed, pops_after, zero_pops, Cell, Life,
    LifeAlgoSelect, LifeOptions, LifeRule,
};

verus! {

/// The cells of `full` before position `(x, y)` in row-major order; dead from there on.
pub open spec fn rows_upto(full: Rows, w: int, h: int, y: int, x: int) -> Rows {
    Seq::new(
        h as nat,
        |yy: int|
            Seq::new(
                w as nat,
                |xx: int|
                    if yy < y || (yy == y && xx < x) {
                        full[yy][xx]
                    } else {
                        dead_cell()
                    },
            ),
    )
}

pub proof fn lemma_upto_step(full: Rows, w: int, h: int, y: int, x: int)
    requires
        rows_wf(full, w, h),
        0 <= y < h,
        0 <= x < w,
    ensures
        rows_upto(full, w, h, y, x)[y][x] == dead_cell(),
        rows_wf(rows_upto(full, w, h, y, x), w, h),
        rows_upto(full, w, h, y, x + 1) == rows_upto(full, w, h, y, x).update(
            y,
            rows_upto(full, w, h, y, x)[y].update(x, full[y][x]),
        ),
        full[y][x] == dead_cell() ==> rows_upto(full, w, h, y, x + 1) == rows_upto(full, w, h, y, x),
{
    let a = rows_upto(full, w, h, y, x);
    let b = rows_upto(full, w, h, y, x + 1);
    assert(b =~~= a.update(y, a[y].update(x, full[y][x])));
    if full[y][x] == dead_cell() {
        assert(b =~~= a);
    }
}

pub proof fn lemma_upto_ends(full: Rows, w: int, h: int)
    requires
        rows_wf(full, w, h),
        w >= 0,
        h >= 0,
    ensures
        rows_upto(full, w, h, 0, 0) == dead_rows(w, h),
        rows_upto(full, w, h, h, 0) == full,
        forall|y: int| 0 <= y < h ==> #[trigger] rows_upto(full, w, h, y, w) == rows_upto(full, w, h, y + 1, 0),
{
    assert(rows_upto(full, w, h, 0, 0) =~~= dead_rows(w, h));
    assert(rows_upto(full, w, h, h, 0) =~~= full);
    assert forall|y: int| 0 <= y < h implies #[trigger] rows_upto(full, w, h, y, w) == rows_upto(full, w, h, y + 1, 0) by {
        assert(rows_upto(full, w, h, y, w) =~~= rows_upto(full, w, h, y + 1, 0));
    }
}

proof fn lemma_pop_dead_seq(n: nat, f: u8)
    ensures
        pop_seq(Seq::new(n, |x: int| dead_cell()), f) == 0,
    decreases n,
{
    lemma_dead_cell();
    if n > 0 {
        lemma_pop_dead_seq((n - 1) as nat, f);
        assert(Seq::new(n, |x: int| dead_cell()).drop_last() =~= Seq::new((n - 1) as nat, |x: int| dead_cell()));
    }
}

/// A grid of dead cells holds no live cell.
pub proof fn lemma_pop_dead(w: int, h: int, f: u8)
    requires
        w >= 0,
        h >= 0,
    ensures
        pop_rows(dead_rows(w, h), f) == 0,
    decreases h,
{
    if h > 0 {
        lemma_pop_dead(w, h - 1, f);
        assert(dead_rows(w, h).drop_last() =~~= dead_rows(w, h - 1));
        lemma_pop_dead_seq(w as nat, f);
    }
}

impl Life {
    /// A fresh grid's populations count its (no) live cells.
    pub proof fn lemma_fresh_counted(self, algo: LifeAlgoSelect, size: Pos, rule: super::LifeRule)
        requires
            self.is_fresh(algo, size, rule),
        ensures
            self.counted(),
    {
        self.lemma_wf();
        assert forall|f: u8| f < 16 implies #[trigger] self.pops_view()[f as int] == pop_clamp(pop_rows(self.rows(), f)) by {
            lemma_pop_dead(size.x as int, size.y as int, f);
        }
    }
}

/// The grid that `copy` makes: the `area` cells from `pos` on, dead where the source has none.
pub open spec fn copy_rows(src: Rows, pos: Pos, area: Pos) -> Rows {
    Seq::new(area.y as nat, |y: int| Seq::new(area.x as nat, |x: int| cell_at(src, pos.x + x, pos.y + y)))
}

impl Life {
    /// A new basic grid of `area` holding this grid's cells from `pos` on (dead where this
    /// grid has none), under the same rule.
    pub fn copy(&self, pos: Pos, area: Pos) -> (r: Life)
        requires
            self.wf(),
            0 <= area.x <= max_dim(),
            0 <= area.y <= max_dim(),
            in_i16(pos.x + area.x),
            in_i16(pos.y + area.y),
            self.kind() == LifeAlgoSelect::Basic && area.x > 0 && area.y > 0 ==> pos.x >= 0 && pos.y >= 0,
        ensures
            r.wf(),
            r.kind() == LifeAlgoSelect::Basic,
            r.spec_size() == area,
            r.spec_rule() == self.spec_rule(),
            r.spec_generation() == 0,
            r.rows() == copy_rows(self.rows(), pos, area),
            r.counted(),
    {
        self.copy_ruled(pos, area, self.rule)
    }

    /// Like `copy`, under `rule`.
    pub(crate) fn copy_ruled(&self, pos: Pos, area: Pos, rule: LifeRule) -> (r: Life)
        requires
            self.wf(),
            0 <= area.x <= max_dim(),
            0 <= area.y <= max_dim(),
            in_i16(pos.x + area.x),
            in_i16(pos.y + area.y),
            self.kind() == LifeAlgoSelect::Basic && area.x > 0 && area.y > 0 ==> pos.x >= 0 && pos.y >= 0,
        ensures
            r.wf(),
            r.kind() == LifeAlgoSelect::Basic,
            r.spec_size() == area,
            r.spec_rule() == rule,
            r.spec_generation() == 0,
            r.rows() == copy_rows(self.rows(), pos, area),
            r.counted(),
    {
        let mut life = Life::new_ex(area, LifeOptions { algo: LifeAlgoSelect::Basic, rule });
        let ghost full = copy_rows(self.rows(), pos, area);
        let ghost w = area.x as int;
        let ghost h = area.y as int;
        proof {
            lemma_upto_ends(full, w, h);
            life.lemma_fresh_counted(LifeAlgoSelect::Basic, area, rule);
            self.lemma_wf();
        }
        let mut y: i16 = 0;
        while y < area.y
            invariant
                self.wf(),
                0 <= y <= area.y,
                0 <= area.x <= max_dim(),
                0 <= area.y <= max_dim(),
                in_i16(pos.x + area.x),
                in_i16(pos.y + area.y),
                self.kind() == LifeAlgoSelect::Basic && area.x > 0 && area.y > 0 ==> pos.x >= 0 && pos.y >= 0,
                w == area.x,
                h == area.y,
                full == copy_rows(self.rows(), pos, area),
                rows_wf(full, w, h),
                rows_wf(self.rows(), self.width(), self.height()),
                forall|yy: int| 0 <= yy < h ==> #[trigger] rows_upto(full, w, h, yy, w) == rows_upto(full, w, h, yy + 1, 0),
                life.wf(),
                life.kind() == LifeAlgoSelect::Basic,
                life.spec_size() == area,
                life.spec_rule() == rule,
                life.spec_generation() == 0,
                life.rows() == rows_upto(full, w, h, y as int, 0),
                life.counted(),
            decreases area.y - y,
        {
            let mut x: i16 = 0;
            while x < area.x
                invariant
                    self.wf(),
                    0 <= y < area.y,
                    0 <= x <= area.x,
                    0 <= area.x <= max_dim(),
                    in_i16(pos.x + area.x),
                    in_i16(pos.y + area.y),
                    self.kind() == LifeAlgoSelect::Basic && area.x > 0 && area.y > 0 ==> pos.x >= 0 && pos.y >= 0,
                    w == area.x,
                    h == area.y,
                    full == copy_rows(self.rows(), pos, area),
                    rows_wf(full, w, h),
                    rows_wf(self.rows(), self.width(), self.height()),
                    life.wf(),
                    life.kind() == LifeAlgoSelect::Basic,
                    life.spec_size() == area,
                    life.spec_rule() == rule,
                    life.spec_generation() == 0,
                    life.rows() == rows_upto(full, w, h, y as int, x as int),
                    life.counted(),
                decreases area.x - x,
            {
                let src = Pos { x: pos.x + x, y: pos.y + y };
                proof {
                    lemma_upto_step(full, w, h, y as int, x as int);
                }
                match self.get_cell(src) {
                    Some(c) => {
                        let c: Cell = *c;
                        let ghost r0 = life.rows();
                        let ghost p0 = life.pops_view();
                        life.insert(Pos { x, y }, c);
                        proof {
                            lemma_counted_fill(r0, p0, y as int, x as int, c, life.pops_view());
                        }
                    },
                    None => {},
                }
                x = x + 1;
            }
            y = y + 1;
        }
        life
    }
}


/// The grid `rotate` makes from a `w` by `h` grid: the grid turned a quarter clockwise,
/// `h` wide and `w` high, whose cell at `(x, y)` is the source cell at `(y, h - 1 - x)`.
pub open spec fn turn_rows(src: Rows, w: int, h: int) -> Rows {
    Seq::new(w as nat, |y: int| Seq::new(h as nat, |x: int| cell_at(src, y, h - 1 - x)))
}

/// The grid `flip_vert` makes from a `w` by `h` grid: row `y` is source row `h - 1 - y`.
pub open spec fn flip_rows(src: Rows, w: int, h: int) -> Rows {
    Seq::new(h as nat, |y: int| Seq::new(w as nat, |x: int| cell_at(src, x, h - 1 - y)))
}

/// Turning a grid upside down twice gives it back.
pub proof fn law_flip_twice(rows: Rows, w: int, h: int)
    requires
        rows_wf(rows, w, h),
    ensures
        flip_rows(flip_rows(rows, w, h), w, h) == rows,
{
    let f = flip_rows(rows, w, h);
    let ff = flip_rows(f, w, h);
    assert forall|y: int| 0 <= y < h implies #[trigger] ff[y] =~= rows[y] by {
        assert forall|x: int| 0 <= x < w implies #[trigger] ff[y][x] == rows[y][x] by {
            assert(f[h - 1 - y][x] == cell_at(rows, x, y));
        }
    }
    assert(ff =~= rows);
}

/// A vertical flip only reverses the order of the rows: each row comes through whole, with
/// its cells in the same columns, so a cell at `(x, y)` lands at `(x, h - 1 - y)`.
pub proof fn law_flip_reverses_rows(rows: Rows, w: int, h: int)
    requires
        rows_wf(rows, w, h),
    ensures
        flip_rows(rows, w, h) == rows.reverse(),
        forall|x: int, y: int|
            0 <= x < w && 0 <= y < h ==> #[trigger] flip_rows(rows, w, h)[h - 1 - y][x] == rows[y][x],
{
    let f = flip_rows(rows, w, h);
    let r = rows.reverse();
    assert forall|y: int| 0 <= y < h implies #[trigger] f[y] =~= r[y] by {
        assert(r[y] == rows[h - 1 - y]);
        assert forall|x: int| 0 <= x < w implies f[y][x] == r[y][x] by {
            assert(f[y][x] == cell_at(rows, x, h - 1 - y));
        }
    }
    assert(f =~= r);
    assert forall|x: int, y: int| 0 <= x < w && 0 <= y < h implies #[trigger] f[h - 1 - y][x] == rows[y][x] by {
        assert(f[h - 1 - y] =~= r[h - 1 - y]);
    }
}

/// Four quarter turns give a grid back.
pub proof fn law_four_turns(rows: Rows, w: int, h: int)
    requires
        rows_wf(rows, w, h),
        w >= 0,
        h >= 0,
    ensures
        turn_rows(turn_rows(turn_rows(turn_rows(rows, w, h), h, w), w, h), h, w) == rows,
{
    let t1 = turn_rows(rows, w, h);
    let t2 = turn_rows(t1, h, w);
    let t3 = turn_rows(t2, w, h);
    let t4 = turn_rows(t3, h, w);
    assert forall|y: int| 0 <= y < h implies #[trigger] t4[y] =~= rows[y] by {
        assert forall|x: int| 0 <= x < w implies #[trigger] t4[y][x] == rows[y][x] by {
            assert(t4[y][x] == t3[w - 1 - x][y]);
            assert(t3[w - 1 - x][y] == t2[h - 1 - y][w - 1 - x]);
            assert(t2[h - 1 - y][w - 1 - x] == t1[x][h - 1 - y]);
            assert(t1[x][h - 1 - y] == rows[y][x]);
        }
    }
    assert(t4 =~= rows);
}

impl Life {
    /// A new basic grid under the same rule holding this grid turned a quarter clockwise:
    /// `height` wide and `width` high, the top-right cell going to the bottom-right.
    pub fn rotate(&self) -> (r: Life)
        requires
            self.wf(),
        ensures
            r.wf(),
            r.kind() == LifeAlgoSelect::Basic,
            r.spec_size() == (Pos { x: self.spec_size().y, y: self.spec_size().x }),
            r.spec_rule() == self.spec_rule(),
            r.spec_generation() == 0,
            r.rows() == turn_rows(self.rows(), self.width(), self.height()),
            r.counted(),
    {
        let size = self.size();
        proof {
            self.lemma_wf();
        }
        let turned = Pos { x: size.y, y: size.x };
        let mut life = Life::new_ex(turned, LifeOptions { algo: LifeAlgoSelect::Basic, rule: self.rule });
        let ghost full = turn_rows(self.rows(), size.x as int, size.y as int);
        let ghost w = size.x as int;
        let ghost h = size.y as int;
        proof {
            lemma_upto_ends(full, h, w);
            life.lemma_fresh_counted(LifeAlgoSelect::Basic, turned, self.spec_rule());
            self.lemma_wf();
        }
        let mut y: i16 = 0;
        while y < turned.y
            invariant
                self.wf(),
                0 <= y <= turned.y,
                size == self.spec_size(),
                turned == (Pos { x: size.y, y: size.x }),
                0 <= size.x <= max_dim(),
                0 <= size.y <= max_dim(),
                w == size.x,
                h == size.y,
                full == turn_rows(self.rows(), w, h),
                rows_wf(full, h, w),
                rows_wf(self.rows(), self.width(), self.height()),
                forall|yy: int| 0 <= yy < w ==> #[trigger] rows_upto(full, h, w, yy, h) == rows_upto(full, h, w, yy + 1, 0),
                life.wf(),
                life.kind() == LifeAlgoSelect::Basic,
                life.spec_size() == turned,
                life.spec_rule() == self.spec_rule(),
                life.spec_generation() == 0,
                life.rows() == rows_upto(full, h, w, y as int, 0),
                life.counted(),
            decreases turned.y - y,
        {
            let mut x: i16 = 0;
            while x < turned.x
                invariant
                    self.wf(),
                    0 <= y < turned.y,
                    0 <= x <= turned.x,
                    size == self.spec_size(),
                    turned == (Pos { x: size.y, y: size.x }),
                    0 <= size.x <= max_dim(),
                    0 <= size.y <= max_dim(),
                    w == size.x,
                    h == size.y,
                    full == turn_rows(self.rows(), w, h),
                    rows_wf(full, h, w),
                    rows_wf(self.rows(), self.width(), self.height()),
                    life.wf(),
                    life.kind() == LifeAlgoSelect::Basic,
                    life.spec_size() == turned,
                    life.spec_rule() == self.spec_rule(),
                    life.spec_generation() == 0,
                    life.rows() == rows_upto(full, h, w, y as int, x as int),
                    life.counted(),
                decreases turned.x - x,
            {
                let src = Pos { x: y, y: size.y - 1 - x };
                proof {
                    lemma_upto_step(full, h, w, y as int, x as int);
                }
                match self.get_cell(src) {
                    Some(c) => {
                        let c: Cell = *c;
                        let ghost r0 = life.rows();
                        let ghost p0 = life.pops_view();
                        life.insert(Pos { x, y }, c);
                        proof {
                            lemma_counted_fill(r0, p0, y as int, x as int, c, life.pops_view());
                        }
                    },
                    None => {},
                }
                x = x + 1;
            }
            y = y + 1;
        }
        life
    }

    /// A new basic grid of the same size and rule, upside down: row `y` holds this grid's
    /// row `height - 1 - y`.
    pub fn flip_vert(&self) -> (r: Life)
        requires
            self.wf(),
        ensures
            r.wf(),
            r.kind() == LifeAlgoSelect::Basic,
            r.spec_size() == self.spec_size(),
            r.spec_rule() == self.spec_rule(),
            r.spec_generation() == 0,
            r.rows() == flip_rows(self.rows(), self.width(), self.height()),
            r.counted(),
    {
        let size = self.size();
        proof {
            self.lemma_wf();
        }
        let mut life = Life::new_ex(size, LifeOptions { algo: LifeAlgoSelect::Basic, rule: self.rule });
        let height = size.y;
        let (mirror_axis, is_odd) = if height % 2 == 0 {
            ((height / 2) - 1, false)
        } else {
            ((height / 2), true)
        };
        let ghost full = flip_rows(self.rows(), size.x as int, size.y as int);
        let ghost w = size.x as int;
        let ghost h = size.y as int;
        proof {
            lemma_upto_ends(full, w, h);
            life.lemma_fresh_counted(LifeAlgoSelect::Basic, size, self.spec_rule());
            self.lemma_wf();
        }
        let mut y: i16 = 0;
        while y < size.y
            invariant
                self.wf(),
                0 <= y <= size.y,
                size == self.spec_size(),
                0 <= size.x <= max_dim(),
                0 <= size.y <= max_dim(),
                w == size.x,
                h == size.y,
                full == flip_rows(self.rows(), w, h),
                rows_wf(full, w, h),
                rows_wf(self.rows(), self.width(), self.height()),
                forall|yy: int| 0 <= yy < h ==> #[trigger] rows_upto(full, w, h, yy, w) == rows_upto(full, w, h, yy + 1, 0),
                life.wf(),
                life.kind() == LifeAlgoSelect::Basic,
                life.spec_size() == size,
                life.spec_rule() == self.spec_rule(),
                life.spec_generation() == 0,
                life.rows() == rows_upto(full, w, h, y as int, 0),
                life.counted(),
                size.y % 2 == 0 ==> !is_odd && mirror_axis == size.y / 2 - 1,
                size.y % 2 == 1 ==> is_odd && mirror_axis == size.y / 2,
            decreases size.y - y,
        {
            let mut x: i16 = 0;
            while x < size.x
                invariant
                    self.wf(),
                    0 <= y < size.y,
                    0 <= x <= size.x,
                    size == self.spec_size(),
                    0 <= size.x <= max_dim(),
                    0 <= size.y <= max_dim(),
                    w == size.x,
                    h == size.y,
                    full == flip_rows(self.rows(), w, h),
                    rows_wf(full, w, h),
                    rows_wf(self.rows(), self.width(), self.height()),
                    life.wf(),
                    life.kind() == LifeAlgoSelect::Basic,
                    life.spec_size() == size,
                    life.spec_rule() == self.spec_rule(),
                    life.spec_generation() == 0,
                    life.rows() == rows_upto(full, w, h, y as int, x as int),
                    life.counted(),
                    size.y % 2 == 0 ==> !is_odd && mirror_axis == size.y / 2 - 1,
                size.y % 2 == 1 ==> is_odd && mirror_axis == size.y / 2,
                decreases size.x - x,
            {
                let src = if is_odd {
                    Pos { x, y }.reflect_y_odd(mirror_axis)
                } else {
                    Pos { x, y }.reflect_y_even(mirror_axis)
                };
                proof {
                    lemma_upto_step(full, w, h, y as int, x as int);
                }
                match self.get_cell(src) {
                    Some(c) => {
                        let c: Cell = *c;
                        let ghost r0 = life.rows();
                        let ghost p0 = life.pops_view();
                        life.insert(Pos { x, y }, c);
                        proof {
                            lemma_counted_fill(r0, p0, y as int, x as int, c, life.pops_view());
                        }
                    },
                    None => {},
                }
                x = x + 1;
            }
            y = y + 1;
        }
        life
    }
}


/// The cell `paste` writes for a source cell `c`: its state, with faction `f`.
pub open spec fn pasted(c: Cell, f: u8) -> Cell {
    cell_of(packed(c.spec_state(), f))
}

/// `dst` with the source cells before `(cx, cy)` (row-major) pasted at offset `pos`.
pub open spec fn paste_upto(dst: Rows, src: Rows, pos: Pos, f: u8, cy: int, cx: int) -> Rows {
    Seq::new(
        dst.len(),
        |y: int|
            Seq::new(
                dst[y].len(),
                |x: int|
                    {
                        let sx = x - pos.x;
                        let sy = y - pos.y;
                        if 0 <= sy < src.len() && 0 <= sx < src[sy].len() && (sy < cy || (sy == cy && sx < cx)) {
                            pasted(src[sy][sx], f)
                        } else {
                            dst[y][x]
                        }
                    },
            ),
    )
}

/// `dst` with all of `src` pasted at offset `pos` (source cells that fall off `dst` are
/// dropped).
pub open spec fn paste_rows(dst: Rows, src: Rows, pos: Pos, f: u8) -> Rows {
    paste_upto(dst, src, pos, f, src.len() as int, 0)
}

/// The (old, new) cells of the write `paste` makes for source cell `(x, y)`; a write off
/// the grid is `(new, new)`, no change.
pub open spec fn paste_pair(dst: Rows, src: Rows, pos: Pos, f: u8, x: int, y: int) -> (Cell, Cell) {
    let n = pasted(src[y][x], f);
    let tx = pos.x + x;
    let ty = pos.y + y;
    if 0 <= ty < dst.len() && 0 <= tx < dst[ty].len() {
        (dst[ty][tx], n)
    } else {
        (n, n)
    }
}

/// The writes of `paste` for source row `y`.
pub open spec fn paste_row_pairs(dst: Rows, src: Rows, pos: Pos, f: u8, y: int) -> Seq<(Cell, Cell)> {
    Seq::new(src[y].len(), |x: int| paste_pair(dst, src, pos, f, x, y))
}

/// The writes of `paste` for the first `n` source rows, in order.
pub open spec fn paste_pairs(dst: Rows, src: Rows, pos: Pos, f: u8, n: int) -> Seq<(Cell, Cell)>
    decreases n,
{
    if n <= 0 {
        Seq::empty()
    } else {
        paste_pairs(dst, src, pos, f, n - 1) + paste_row_pairs(dst, src, pos, f, n - 1)
    }
}

/// The populations after the writes `ws`, in order, each as `Life::insert` makes it.
pub open spec fn pops_fold(p: Seq<i16>, ws: Seq<(Cell, Cell)>) -> Seq<i16>
    decreases ws.len(),
{
    if ws.len() == 0 {
        p
    } else {
        let q = pops_fold(p, ws.drop_last());
        let w = ws.last();
        if w.0 == w.1 {
            q
        } else {
            pops_after(q, w.0, w.1)
        }
    }
}

/// The faction `paste` gives its cells.
pub open spec fn faction_or_zero(faction: Option<u8>) -> u8 {
    match faction {
        Some(f) => f,
        None => 0,
    }
}

/// Copying the area where a grid was pasted gives back the pasted grid, each cell in its
/// state with the faction it was pasted with, when the pasted grid lies wholly on the target.
pub proof fn law_copy_after_paste(dst: Rows, w: int, h: int, src: Rows, sw: int, sh: int, pos: Pos, f: u8)
    requires
        rows_wf(dst, w, h),
        rows_wf(src, sw, sh),
        0 <= sw,
        0 <= sh,
        0 <= pos.x,
        0 <= pos.y,
        pos.x + sw <= w,
        pos.y + sh <= h,
        in_i16(sw),
        in_i16(sh),
    ensures
        copy_rows(paste_rows(dst, src, pos, f), pos, Pos { x: sw as i16, y: sh as i16 }) == src.map_values(
            |row: Seq<Cell>| row.map_values(|c: Cell| pasted(c, f)),
        ),
{
    let p = paste_rows(dst, src, pos, f);
    let c = copy_rows(p, pos, Pos { x: sw as i16, y: sh as i16 });
    let e = src.map_values(|row: Seq<Cell>| row.map_values(|c: Cell| pasted(c, f)));
    assert forall|y: int| 0 <= y < sh implies #[trigger] c[y] =~= e[y] by {
        assert forall|x: int| 0 <= x < sw implies #[trigger] c[y][x] == e[y][x] by {
            assert(p[pos.y + y][pos.x + x] == pasted(src[y][x], f));
        }
    }
    assert(c =~= e);
}

impl Life {
    /// Write every cell of `other` at offset `pos` (cells that fall off this grid are
    /// dropped), keeping its state and giving it `faction` (0 when `None`).
    pub fn paste(&mut self, other: &Life, pos: Pos, faction: Option<u8>)
        requires
            old(self).wf(),
            other.wf(),
            other.width() > 0 && other.height() > 0 ==> in_i16(pos.x + other.width() - 1) && in_i16(
                pos.y + other.height() - 1,
            ),
            old(self).kind() == LifeAlgoSelect::Basic && other.width() > 0 && other.height() > 0 ==> pos.x >= 0 && pos.y >= 0,
            old(self).kind() == LifeAlgoSelect::Cached ==> faction_or_zero(faction) % 16 == 0,
        ensures
            final(self).wf(),
            final(self).kind() == old(self).kind(),
            final(self).spec_size() == old(self).spec_size(),
            final(self).spec_rule() == old(self).spec_rule(),
            final(self).spec_generation() == old(self).spec_generation(),
            final(self).rows() == paste_rows(old(self).rows(), other.rows(), pos, faction_or_zero(faction)),
            final(self).pops_view() == pops_fold(
                old(self).pops_view(),
                paste_pairs(old(self).rows(), other.rows(), pos, faction_or_zero(faction), other.height()),
            ),
            old(self).counted() && old(self).width() * old(self).height() < 32767 ==> final(self).counted(),
    {
        let ghost keep = self.counted() && self.width() * self.height() < 32767;
        let f: u8 = match faction {
            Some(v) => v,
            None => 0,
        };
        let osize = other.size();
        let ghost d0 = self.rows();
        let ghost p0 = self.pops_view();
        let ghost src = other.rows();
        proof {
            self.lemma_wf();
            other.lemma_wf();
            assert(paste_upto(d0, src, pos, f, 0, 0) =~~= d0);
            assert(paste_pairs(d0, src, pos, f, 0) =~= Seq::<(Cell, Cell)>::empty());
        }
        let mut y: i16 = 0;
        while y < osize.y
            invariant
                other.wf(),
                osize == other.spec_size(),
                rows_wf(src, other.width(), other.height()),
                src == other.rows(),
                0 <= y <= osize.y,
                0 <= osize.x,
                osize.x > 0 && osize.y > 0 ==> in_i16(pos.x + osize.x - 1) && in_i16(pos.y + osize.y - 1),
                self.kind() == LifeAlgoSelect::Basic && osize.x > 0 && osize.y > 0 ==> pos.x >= 0 && pos.y >= 0,
                self.kind() == LifeAlgoSelect::Cached ==> f % 16 == 0,
                self.wf(),
                self.kind() == old(self).kind(),
                self.spec_size() == old(self).spec_size(),
                self.spec_rule() == old(self).spec_rule(),
                self.spec_generation() == old(self).spec_generation(),
                rows_wf(d0, self.width(), self.height()),
                self.rows() == paste_upto(d0, src, pos, f, y as int, 0),
                self.pops_view() == pops_fold(p0, paste_pairs(d0, src, pos, f, y as int)),
                keep == (old(self).counted() && old(self).width() * old(self).height() < 32767),
                keep ==> self.counted(),
            decreases osize.y - y,
        {
            let mut x: i16 = 0;
            while x < osize.x
                invariant
                    other.wf(),
                    osize == other.spec_size(),
                    rows_wf(src, other.width(), other.height()),
                    src == other.rows(),
                    0 <= y < osize.y,
                    0 <= x <= osize.x,
                    osize.x > 0 ==> in_i16(pos.x + osize.x - 1) && in_i16(pos.y + osize.y - 1),
                    self.kind() == LifeAlgoSelect::Basic && osize.x > 0 ==> pos.x >= 0 && pos.y >= 0,
                    self.kind() == LifeAlgoSelect::Cached ==> f % 16 == 0,
                    self.wf(),
                    self.kind() == old(self).kind(),
                    self.spec_size() == old(self).spec_size(),
                    self.spec_rule() == old(self).spec_rule(),
                    self.spec_generation() == old(self).spec_generation(),
                    rows_wf(d0, self.width(), self.height()),
                    self.rows() == paste_upto(d0, src, pos, f, y as int, x as int),
                    self.pops_view() == pops_fold(
                        p0,
                        paste_pairs(d0, src, pos, f, y as int) + paste_row_pairs(d0, src, pos, f, y as int).take(x as int),
                    ),
                    keep == (old(self).counted() && old(self).width() * old(self).height() < 32767),
                    keep ==> self.counted(),
                decreases osize.x - x,
            {
                let c: Cell = match other.get_cell(Pos { x, y }) {
                    Some(c) => *c,
                    None => Cell::new(0, 0),
                };
                let st = c.get_state();
                let n = Cell::new(st, f);
                let t = Pos { x: pos.x + x, y: pos.y + y };
                let ghost r0 = self.rows();
                let ghost q0 = self.pops_view();
                let ghost prev = paste_pairs(d0, src, pos, f, y as int) + paste_row_pairs(d0, src, pos, f, y as int).take(x as int);
                let ghost nxt = paste_pairs(d0, src, pos, f, y as int) + paste_row_pairs(d0, src, pos, f, y as int).take(x + 1);
                proof {
                    lemma_packed_faction(st, f);
                    assert(n == pasted(src[y as int][x as int], f));
                    assert(nxt =~= prev.push(paste_pair(d0, src, pos, f, x as int, y as int)));
                    assert(nxt.drop_last() =~= prev);
                    if self.contains(t) {
                        assert(r0[t.y as int][t.x as int] == d0[t.y as int][t.x as int]);
                    }
                }
                self.insert(t, n);
                proof {
                    let a = paste_upto(d0, src, pos, f, y as int, x + 1);
                    if self.contains(t) {
                        assert(self.rows() =~~= a);
                    } else {
                        assert(r0 =~~= a);
                    }
                }
                x = x + 1;
            }
            proof {
                assert(paste_upto(d0, src, pos, f, y as int, osize.x as int) =~~= paste_upto(d0, src, pos, f, y + 1, 0));
                assert(paste_row_pairs(d0, src, pos, f, y as int).take(osize.x as int) =~= paste_row_pairs(d0, src, pos, f, y as int));
            }
            y = y + 1;
        }
    }
}


/// The entries `(x, y, cell)` of row `y`.
pub open spec fn row_items(row: Seq<Cell>, y: int) -> Seq<(i16, i16, Cell)> {
    Seq::new(row.len(), |x: int| (x as i16, y as i16, row[x]))
}

/// The entries `(x, y, cell)` of the first `n` rows, row by row.
pub open spec fn grid_items(rows: Rows, n: int) -> Seq<(i16, i16, Cell)>
    decreases n,
{
    if n <= 0 {
        Seq::empty()
    } else {
        grid_items(rows, n - 1) + row_items(rows[n - 1], n - 1)
    }
}

/// The cells at the positions `ps` that lie on the grid, in order.
pub open spec fn cells_at(rows: Rows, ps: Seq<Pos>) -> Seq<Cell>
    decreases ps.len(),
{
    if ps.len() == 0 {
        Seq::empty()
    } else {
        let p = ps.last();
        let rest = cells_at(rows, ps.drop_last());
        if 0 <= p.y < rows.len() && 0 <= p.x < rows[p.y as int].len() {
            rest.push(rows[p.y as int][p.x as int])
        } else {
            rest
        }
    }
}

/// The bytes of the cells of the first `n` rows, row by row.
pub open spec fn grid_bytes(rows: Rows, n: int) -> Seq<u8>
    decreases n,
{
    if n <= 0 {
        Seq::empty()
    } else {
        grid_bytes(rows, n - 1) + rows[n - 1].map_values(|c: Cell| c.spec_value())
    }
}

impl Life {
    /// Every cell with its position, row by row.
    pub fn iter(&self) -> (v: Vec<(i16, i16, Cell)>)
        requires
            self.wf(),
        ensures
            v@ == grid_items(self.rows(), self.height()),
    {
        let size = self.size();
        proof {
            self.lemma_wf();
        }
        let mut v: Vec<(i16, i16, Cell)> = Vec::new();
        let mut y: i16 = 0;
        while y < size.y
            invariant
                self.wf(),
                size == self.spec_size(),
                rows_wf(self.rows(), self.width(), self.height()),
                0 <= size.x,
                0 <= y <= size.y,
                v@ == grid_items(self.rows(), y as int),
            decreases size.y - y,
        {
            let mut x: i16 = 0;
            while x < size.x
                invariant
                    self.wf(),
                    size == self.spec_size(),
                    rows_wf(self.rows(), self.width(), self.height()),
                    0 <= y < size.y,
                    0 <= x <= size.x,
                    v@ == grid_items(self.rows(), y as int) + row_items(self.rows()[y as int], y as int).take(x as int),
                decreases size.x - x,
            {
                match self.get_cell(Pos { x, y }) {
                    Some(c) => {
                        v.push((x, y, *c));
                    },
                    None => {},
                }
                proof {
                    assert(row_items(self.rows()[y as int], y as int).take(x + 1) =~= row_items(
                        self.rows()[y as int],
                        y as int,
                    ).take(x as int).push((x, y, self.rows()[y as int][x as int])));
                }
                x = x + 1;
            }
            proof {
                assert(row_items(self.rows()[y as int], y as int).take(size.x as int) =~= row_items(
                    self.rows()[y as int],
                    y as int,
                ));
            }
            y = y + 1;
        }
        v
    }

    /// The cells of the rectangle from `start` spanning `area`, row by row, leaving out the
    /// positions off the grid.
    pub fn iter_area(&self, start: &Pos, area: Pos) -> (v: Vec<Cell>)
        requires
            self.wf(),
            area.x >= 0,
            area.y >= 0,
            in_i16(start.x + area.x),
            in_i16(start.y + area.y),
            self.kind() == LifeAlgoSelect::Basic && area.x > 0 && area.y > 0 ==> start.x >= 0 && start.y >= 0,
        ensures
            v@ == cells_at(self.rows(), super::pos::area_positions(*start, area)),
    {
        let ps = start.iter(area);
        proof {
            self.lemma_wf();
            super::pos::lemma_area_nonneg(*start, area);
        }
        let mut v: Vec<Cell> = Vec::new();
        let mut i: usize = 0;
        while i < ps.len()
            invariant
                self.wf(),
                rows_wf(self.rows(), self.width(), self.height()),
                i <= ps.len(),
                ps@ == super::pos::area_positions(*start, area),
                self.kind() == LifeAlgoSelect::Basic ==> forall|k: int| 0 <= k < ps@.len() ==> (#[trigger] ps@[k]).x >= 0 && ps@[k].y >= 0,
                v@ == cells_at(self.rows(), ps@.take(i as int)),
            decreases ps.len() - i,
        {
            let p = ps[i];
            proof {
                assert(ps@.take(i + 1).drop_last() =~= ps@.take(i as int));
            }
            match self.get_cell(p) {
                Some(c) => {
                    v.push(*c);
                },
                None => {},
            }
            i = i + 1;
        }
        assert(ps@.take(ps.len() as int) =~= ps@);
        v
    }

    /// A hash of the cells (their bytes, row by row) with the standard library's default
    /// hasher.
    pub fn hash(&self) -> (h: u64)
        requires
            self.wf(),
        ensures
            h == DefaultHasher::spec_finish(seq![grid_bytes(self.rows(), self.height())]),
    {
        let size = self.size();
        proof {
            self.lemma_wf();
        }
        let mut bytes: Vec<u8> = Vec::new();
        let mut y: i16 = 0;
        while y < size.y
            invariant
                self.wf(),
                size == self.spec_size(),
                rows_wf(self.rows(), self.width(), self.height()),
                0 <= size.x,
                0 <= y <= size.y,
                bytes@ == grid_bytes(self.rows(), y as int),
            decreases size.y - y,
        {
            let mut x: i16 = 0;
            while x < size.x
                invariant
                    self.wf(),
                    size == self.spec_size(),
                    rows_wf(self.rows(), self.width(), self.height()),
                    0 <= y < size.y,
                    0 <= x <= size.x,
                    bytes@ == grid_bytes(self.rows(), y as int) + self.rows()[y as int].map_values(|c: Cell| c.spec_value()).take(x as int),
                decreases size.x - x,
            {
                match self.get_cell(Pos { x, y }) {
                    Some(c) => {
                        bytes.push(c.value());
                    },
                    None => {},
                }
                proof {
                    let m = self.rows()[y as int].map_values(|c: Cell| c.spec_value());
                    assert(m.take(x + 1) =~= m.take(x as int).push(m[x as int]));
                }
                x = x + 1;
            }
            proof {
                let m = self.rows()[y as int].map_values(|c: Cell| c.spec_value());
                assert(m.take(size.x as int) =~= m);
            }
            y = y + 1;
        }
        let mut hasher = DefaultHasher::new();
        hasher.write(bytes.as_slice());
        hasher.finish()
    }
}


impl Life {
    /// Make the writes `ws` in order (see `Life::insert`).
    pub(crate) fn insert_all(&mut self, ws: &Vec<(Pos, Cell)>)
        requires
            old(self).wf(),
            forall|i: int| 0 <= i < ws@.len() ==> old(self).pos_ok((#[trigger] ws@[i]).0),
            old(self).kind() == LifeAlgoSelect::Cached ==> forall|i: int| 0 <= i < ws@.len() ==> (#[trigger] ws@[i]).1.spec_faction() == 0,
        ensures
            final(self).wf(),
            final(self).kind() == old(self).kind(),
            final(self).spec_size() == old(self).spec_size(),
            final(self).spec_rule() == old(self).spec_rule(),
            final(self).spec_generation() == old(self).spec_generation(),
            (final(self).rows(), final(self).pops_view()) == super::apply_writes((old(self).rows(), old(self).pops_view()), ws@),
    {
        let ghost init = (self.rows(), self.pops_view());
        let mut i: usize = 0;
        proof {
            assert(ws@.take(0) =~= Seq::<(Pos, Cell)>::empty());
        }
        while i < ws.len()
            invariant
                i <= ws.len(),
                self.wf(),
                self.kind() == old(self).kind(),
                self.spec_size() == old(self).spec_size(),
                self.spec_rule() == old(self).spec_rule(),
                self.spec_generation() == old(self).spec_generation(),
                forall|k: int| 0 <= k < ws@.len() ==> self.pos_ok((#[trigger] ws@[k]).0),
                self.kind() == LifeAlgoSelect::Cached ==> forall|k: int| 0 <= k < ws@.len() ==> (#[trigger] ws@[k]).1.spec_faction() == 0,
                init == (old(self).rows(), old(self).pops_view()),
                (self.rows(), self.pops_view()) == super::apply_writes(init, ws@.take(i as int)),
            decreases ws.len() - i,
        {
            let w = ws[i];
            proof {
                assert(ws@.take(i + 1).drop_last() =~= ws@.take(i as int));
                assert(ws@.take(i + 1).last() == w);
            }
            self.insert(w.0, w.1);
            i = i + 1;
        }
        assert(ws@.take(ws.len() as int) =~= ws@);
    }
}

} // verus!
