use vstd::prelude::*;

use crate::life::grid::{cell_at, next_cell_scan, scan_cells, states_valid, vote, vote_step, Rows};
use crate::life::{cell_of, dead_cell, packed, Cell, LifeRule};

verus! {

/// A grid kept as a vector of rows (rows may differ in length), stepped under Conway's
/// rule with the row-by-row neighbour vote.
#[derive(PartialEq, Eq, Debug, Hash)]
pub struct LifeIter {
    pub grid: Vec<Vec<Cell>>,
}

/// The rows of a grid of vectors.
pub open spec fn rows_of(grid: Seq<Vec<Cell>>) -> Rows {
    grid.map_values(|r: Vec<Cell>| r@)
}

/// The next generation of rows that may differ in length, with the row-by-row vote.
pub open spec fn next_rows_ragged(rule: LifeRule, rows: Rows) -> Rows {
    Seq::new(rows.len(), |y: int| Seq::new(rows[y].len(), |x: int| next_cell_scan(rule, rows, x, y)))
}

/// The grid a text describes: one row per line, a space is dead and any other character a
/// live cell of faction 0.
pub open spec fn text_rows(s: Seq<char>) -> Rows {
    let ls = crate::text::split_on(s, '\n');
    Seq::new(
        ls.len(),
        |y: int|
            Seq::new(
                ls[y].len(),
                |x: int|
                    if ls[y][x] == ' ' {
                        dead_cell()
                    } else {
                        cell_of(packed(1, 0))
                    },
            ),
    )
}

impl LifeIter {
    /// The cells, row by row.
    pub open spec fn rows(&self) -> Rows {
        rows_of(self.grid@)
    }

    /// A grid of `dim.1` rows of `dim.0` dead cells.
    pub fn new(dim: (usize, usize)) -> (r: Self)
        ensures
            r.rows() == Seq::new(dim.1 as nat, |y: int| Seq::new(dim.0 as nat, |x: int| dead_cell())),
    {
        assert(packed(0, 0) == 0) by (bit_vector);
        let dead = Cell::new(0, 0);
        let mut grid: Vec<Vec<Cell>> = Vec::new();
        let mut y: usize = 0;
        while y < dim.1
            invariant
                y <= dim.1,
                dead == dead_cell(),
                grid@.len() == y,
                forall|k: int| 0 <= k < y ==> (#[trigger] grid@[k])@ == Seq::new(dim.0 as nat, |x: int| dead_cell()),
            decreases dim.1 - y,
        {
            let mut row: Vec<Cell> = Vec::new();
            let mut x: usize = 0;
            while x < dim.0
                invariant
                    x <= dim.0,
                    dead == dead_cell(),
                    row@ == Seq::new(x as nat, |i: int| dead_cell()),
                decreases dim.0 - x,
            {
                row.push(dead);
                x = x + 1;
                assert(row@ =~= Seq::new(x as nat, |i: int| dead_cell()));
            }
            grid.push(row);
            y = y + 1;
        }
        let r = Self { grid };
        assert(r.rows() =~~= Seq::new(dim.1 as nat, |y: int| Seq::new(dim.0 as nat, |x: int| dead_cell())));
        r
    }

    /// The grid of a text (see `text_rows`).
    pub fn from_text(value: &str) -> (r: Self)
        ensures
            r.rows() == text_rows(value@),
    {
        let cs = crate::text::chars_of(value);
        let lines = crate::text::split_chars(&cs, '\n');
        let ghost ls = crate::text::split_on(value@, '\n');
        assert(packed(0, 0) == 0) by (bit_vector);
        let mut grid: Vec<Vec<Cell>> = Vec::new();
        let mut y: usize = 0;
        while y < lines.len()
            invariant
                lines@.len() == ls.len(),
                forall|k: int| 0 <= k < lines@.len() ==> (#[trigger] lines@[k])@ == ls[k],
                packed(0, 0) == 0,
                ls == crate::text::split_on(value@, '\n'),
                y <= lines.len(),
                grid@.len() == y,
                forall|k: int| 0 <= k < y ==> (#[trigger] grid@[k])@ == text_rows(value@)[k],
            decreases lines.len() - y,
        {
            let line = &lines[y];
            let mut row: Vec<Cell> = Vec::new();
            let mut x: usize = 0;
            while x < line.len()
                invariant
                    packed(0, 0) == 0,
                    ls == crate::text::split_on(value@, '\n'),
                    x <= line.len(),
                    line@ == ls[y as int],
                    y < ls.len(),
                    row@ == text_rows(value@)[y as int].take(x as int),
                decreases line.len() - x,
            {
                let c = if line[x] == ' ' {
                    Cell::new(0, 0)
                } else {
                    Cell::new(1, 0)
                };
                row.push(c);
                x = x + 1;
                assert(row@ =~= text_rows(value@)[y as int].take(x as int));
            }
            assert(row@ =~= text_rows(value@)[y as int]);
            grid.push(row);
            y = y + 1;
        }
        let r = Self { grid };
        assert(r.rows() =~~= text_rows(value@));
        r
    }

    /// The width of the first row and the number of rows.
    pub fn size(&self) -> (r: (usize, usize))
        requires
            self.grid@.len() > 0,
        ensures
            r == (self.grid@[0]@.len() as usize, self.grid@.len() as usize),
    {
        (self.grid[0].len(), self.grid.len())
    }

    /// The cell at `pos` (column, row), or `None` off the grid.
    pub fn get(&self, pos: (usize, usize)) -> (r: Option<&Cell>)
        ensures
            match r {
                Some(c) => pos.1 < self.rows().len() && pos.0 < self.rows()[pos.1 as int].len() && *c
                    == self.rows()[pos.1 as int][pos.0 as int],
                None => !(pos.1 < self.rows().len() && pos.0 < self.rows()[pos.1 as int].len()),
            },
    {
        if pos.1 < self.grid.len() && pos.0 < self.grid[pos.1].len() {
            Some(&self.grid[pos.1][pos.0])
        } else {
            None
        }
    }

    /// The cell at `(x, y)` given as signed coordinates; dead off the grid.
    fn cell_or_dead(&self, x: i64, y: i64) -> (c: Cell)
        requires
            x <= 0x7fff_ffff,
            y <= 0x7fff_ffff,
        ensures
            c == cell_at(self.rows(), x as int, y as int),
    {
        assert(packed(0, 0) == 0) by (bit_vector);
        if y < 0 || x < 0 {
            return Cell::new(0, 0);
        }
        let yu = y as usize;
        let xu = x as usize;
        if yu < self.grid.len() && xu < self.grid[yu].len() {
            self.grid[yu][xu]
        } else {
            Cell::new(0, 0)
        }
    }

    /// `(count, faction)` of the neighbours of `pos`, voted row by row starting from
    /// `faction` (see `vote`).
    pub fn neighbors(&self, faction: u8, pos: (usize, usize)) -> (r: (u8, u8))
        requires
            pos.0 < 0x7fff_ffff,
            pos.1 < 0x7fff_ffff,
        ensures
            r == vote((0u8, faction), scan_cells(self.rows(), pos.0 as int, pos.1 as int)),
    {
        let x = pos.0 as i64;
        let y = pos.1 as i64;
        let ghost cs = scan_cells(self.rows(), pos.0 as int, pos.1 as int);
        let a0 = (0u8, faction);
        let a1 = crate::life::algo::basic::vote_step_exec(a0, self.cell_or_dead(x - 1, y - 1));
        let a2 = crate::life::algo::basic::vote_step_exec(a1, self.cell_or_dead(x, y - 1));
        let a3 = crate::life::algo::basic::vote_step_exec(a2, self.cell_or_dead(x + 1, y - 1));
        let a4 = crate::life::algo::basic::vote_step_exec(a3, self.cell_or_dead(x - 1, y));
        let a5 = crate::life::algo::basic::vote_step_exec(a4, self.cell_or_dead(x + 1, y));
        let a6 = crate::life::algo::basic::vote_step_exec(a5, self.cell_or_dead(x - 1, y + 1));
        let a7 = crate::life::algo::basic::vote_step_exec(a6, self.cell_or_dead(x, y + 1));
        let a8 = crate::life::algo::basic::vote_step_exec(a7, self.cell_or_dead(x + 1, y + 1));
        proof {
            reveal_with_fuel(vote, 9);
            assert(cs.drop_last().drop_last().drop_last().drop_last().drop_last().drop_last().drop_last().drop_last()
                =~= Seq::<Cell>::empty());
        }
        a8
    }

    /// The next generation under Conway's rule: every cell becomes what the rule makes of
    /// its state and its neighbour vote (started from its own faction).
    pub fn update(&self) -> (r: Self)
        requires
            states_valid(self.rows()),
            self.rows().len() < 0x7fff_ffff,
            forall|y: int| 0 <= y < self.rows().len() ==> (#[trigger] self.rows()[y]).len() < 0x7fff_ffff,
        ensures
            r.rows() == next_rows_ragged(LifeRule::gol_spec(), self.rows()),
    {
        let rule = LifeRule::gol();
        let ghost rows = self.rows();
        let mut grid: Vec<Vec<Cell>> = Vec::new();
        let mut y: usize = 0;
        while y < self.grid.len()
            invariant
                rows == self.rows(),
                rule == LifeRule::gol_spec(),
                states_valid(rows),
                rows.len() < 0x7fff_ffff,
                forall|yy: int| 0 <= yy < rows.len() ==> (#[trigger] rows[yy]).len() < 0x7fff_ffff,
                y <= self.grid.len(),
                grid@.len() == y,
                forall|k: int| 0 <= k < y ==> (#[trigger] grid@[k])@ == next_rows_ragged(rule, rows)[k],
            decreases self.grid.len() - y,
        {
            let row = &self.grid[y];
            proof {
                assert(row@ == rows[y as int]);
                assert(rows[y as int].len() < 0x7fff_ffff);
            }
            let mut out: Vec<Cell> = Vec::new();
            let mut x: usize = 0;
            while x < row.len()
                invariant
                    rows == self.rows(),
                    rule == LifeRule::gol_spec(),
                    states_valid(rows),
                    y < rows.len(),
                    rows.len() < 0x7fff_ffff,
                    row@ == rows[y as int],
                    row@.len() < 0x7fff_ffff,
                    x <= row.len(),
                    out@ == next_rows_ragged(rule, rows)[y as int].take(x as int),
                decreases row.len() - x,
            {
                let cell = row[x];
                let nb = self.neighbors(cell.get_faction(), (x, y));
                proof {
                    crate::life::grid::lemma_vote_bound((0u8, cell.spec_faction()), scan_cells(rows, x as int, y as int));
                    assert(cell == cell_at(rows, x as int, y as int));
                    assert(cell.spec_state() < 4);
                }
                let n = rule.update(cell.get_state(), nb);
                out.push(n);
                x = x + 1;
                assert(out@ =~= next_rows_ragged(rule, rows)[y as int].take(x as int));
            }
            assert(out@ =~= next_rows_ragged(rule, rows)[y as int]);
            grid.push(out);
            y = y + 1;
        }
        let r = Self { grid };
        assert(r.rows() =~~= next_rows_ragged(rule, rows));
        r
    }
}

} // verus!
