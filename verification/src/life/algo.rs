use vstd::prelude::*;

pub mod basic;
pub mod cached;
pub mod consistency;

use self::basic::{max_dim, pop_clamp, LifeBasic};
use self::cached::{cached_insert, cached_step, cgrid_rows, CGrid, CState, LifeCached};
use self::consistency::{counts_consistent, lemma_insert_consistent, lemma_step_consistent, stable};
use crate::life::grid::{
    cell_at, cidx, in_grid, lemma_cidx_bounds, lemma_count8, lemma_next_cell_single, neighbor_count, next_rows,
    pop_rows, rows_wf, scan_cells, single_faction, states_valid, Rows,
};
use crate::life::pos::Pos;
use crate::life::{cell_of, dead_cell, lemma_dead_cell, packed, Cell, LifePops, LifeRule};

verus! {

/// The stepping algorithm a `Life` uses.
#[derive(Clone, Copy, Default, Debug, PartialEq, Eq, Structural)]
pub enum LifeAlgoSelect {
    #[default]
    Basic,
    Cached,
    Sprase,
}

/// The algorithms that follow any rule set.
pub fn working_algos() -> (v: Vec<LifeAlgoSelect>)
    ensures
        v@ == seq![LifeAlgoSelect::Basic, LifeAlgoSelect::Cached, LifeAlgoSelect::Sprase],
{
    let mut v = Vec::new();
    v.push(LifeAlgoSelect::Basic);
    v.push(LifeAlgoSelect::Cached);
    v.push(LifeAlgoSelect::Sprase);
    assert(v@ =~= seq![LifeAlgoSelect::Basic, LifeAlgoSelect::Cached, LifeAlgoSelect::Sprase]);
    v
}

/// The algorithms meant for grids with several factions.
pub fn faction_algos() -> (v: Vec<LifeAlgoSelect>)
    ensures
        v@ == seq![LifeAlgoSelect::Basic, LifeAlgoSelect::Cached],
{
    let mut v = Vec::new();
    v.push(LifeAlgoSelect::Basic);
    v.push(LifeAlgoSelect::Cached);
    assert(v@ =~= seq![LifeAlgoSelect::Basic, LifeAlgoSelect::Cached]);
    v
}

/// A grid of `w` by `h` dead cells.
pub open spec fn dead_rows(w: int, h: int) -> Rows {
    Seq::new(h as nat, |y: int| Seq::new(w as nat, |x: int| dead_cell()))
}

/// Under `rule`, a dead cell with no live neighbour stays dead (no birth on zero).
pub open spec fn quiet(rule: LifeRule) -> bool {
    rule.spec_next_state(0, 0) == 0
}

/// A grid together with the algorithm that steps it.
#[derive(Clone)]
pub enum LifeAlgoImpl {
    Basic(LifeBasic),
    Cached(LifeCached),
}

impl LifeAlgoImpl {
    pub open spec fn kind(self) -> LifeAlgoSelect {
        match self {
            LifeAlgoImpl::Basic(_) => LifeAlgoSelect::Basic,
            LifeAlgoImpl::Cached(_) => LifeAlgoSelect::Cached,
        }
    }

    pub open spec fn spec_size(self) -> Pos {
        match self {
            LifeAlgoImpl::Basic(b) => b.spec_size(),
            LifeAlgoImpl::Cached(c) => c.spec_size(),
        }
    }

    /// The cells, row by row.
    pub open spec fn rows(self) -> Rows {
        match self {
            LifeAlgoImpl::Basic(b) => b.rows(),
            LifeAlgoImpl::Cached(c) => c.rows(),
        }
    }

    /// The algorithm's own invariant; a cached grid also keeps every count equal to the
    /// number of live neighbours, with all cells of faction 0.
    pub open spec fn wf(self) -> bool {
        match self {
            LifeAlgoImpl::Basic(b) => b.wf(),
            LifeAlgoImpl::Cached(c) => c.wf() && counts_consistent(c.cgrid(), c.width(), c.height()),
        }
    }

    /// The list of changes covers every cell that `rule` would change next (always true
    /// of the basic algorithm, which recomputes everything).
    pub open spec fn tracks(self, rule: LifeRule) -> bool {
        match self {
            LifeAlgoImpl::Basic(_) => true,
            LifeAlgoImpl::Cached(c) => stable(c.cgrid(), c.updates(), c.width(), c.height(), rule),
        }
    }

    pub proof fn lemma_wf(self)
        requires
            self.wf(),
        ensures
            rows_wf(self.rows(), self.spec_size().x as int, self.spec_size().y as int),
            0 <= self.spec_size().x <= max_dim(),
            0 <= self.spec_size().y <= max_dim(),
    {
        match self {
            LifeAlgoImpl::Basic(b) => {
                b.lemma_rows_wf();
                reveal_basic_bounds(b);
            },
            LifeAlgoImpl::Cached(c) => {
                c.lemma_rows_wf();
                reveal_cached_bounds(c);
            },
        }
    }

    /// An empty grid of `size` for `algo`.
    pub fn new(algo: LifeAlgoSelect, size: Pos) -> (r: Self)
        requires
            algo != LifeAlgoSelect::Sprase,
            0 <= size.x <= max_dim(),
            0 <= size.y <= max_dim(),
        ensures
            r.wf(),
            r.kind() == algo,
            r.spec_size() == size,
            r.rows() == dead_rows(size.x as int, size.y as int),
            forall|rule: LifeRule| quiet(rule) ==> r.tracks(rule),
    {
        match algo {
            LifeAlgoSelect::Cached => {
                let c = LifeCached::new(size);
                proof {
                    lemma_fresh_cached(c);
                }
                LifeAlgoImpl::Cached(c)
            },
            _ => {
                let b = LifeBasic::new(size);
                assert(b.rows() =~~= dead_rows(size.x as int, size.y as int));
                LifeAlgoImpl::Basic(b)
            },
        }
    }

    pub fn size(&self) -> (p: Pos)
        ensures
            p == self.spec_size(),
    {
        match self {
            LifeAlgoImpl::Basic(b) => b.size(),
            LifeAlgoImpl::Cached(c) => c.size(),
        }
    }

    /// The cell at `pos`, or `None` outside the grid. The basic algorithm takes only
    /// positions with no negative coordinate.
    pub fn get(&self, pos: Pos) -> (r: Option<&Cell>)
        requires
            self.wf(),
            self.kind() == LifeAlgoSelect::Basic ==> pos.x >= 0 && pos.y >= 0,
        ensures
            match r {
                Some(c) => in_grid(self.spec_size().x as int, self.spec_size().y as int, pos.x as int, pos.y as int)
                    && *c == self.rows()[pos.y as int][pos.x as int],
                None => !in_grid(self.spec_size().x as int, self.spec_size().y as int, pos.x as int, pos.y as int),
            },
    {
        match self {
            LifeAlgoImpl::Basic(b) => {
                proof {
                    b.lemma_bounds();
                }
                b.get(pos)
            },
            LifeAlgoImpl::Cached(c) => {
                proof {
                    c.lemma_bounds();
                }
                c.get(pos)
            },
        }
    }

    /// Set the cell at `pos`, inside the grid. A cached grid takes only cells of faction 0;
    /// `rule` is a rule whose changes the grid tracks.
    pub fn insert(&mut self, pos: Pos, cell: Cell, Ghost(rule): Ghost<LifeRule>)
        requires
            old(self).wf(),
            old(self).tracks(rule),
            in_grid(old(self).spec_size().x as int, old(self).spec_size().y as int, pos.x as int, pos.y as int),
            old(self).kind() == LifeAlgoSelect::Cached ==> cell.spec_faction() == 0,
        ensures
            final(self).wf(),
            final(self).kind() == old(self).kind(),
            final(self).spec_size() == old(self).spec_size(),
            final(self).rows() == old(self).rows().update(
                pos.y as int,
                old(self).rows()[pos.y as int].update(pos.x as int, cell),
            ),
            forall|r: LifeRule| old(self).tracks(r) ==> #[trigger] final(self).tracks(r),
    {
        match self {
            LifeAlgoImpl::Basic(b) => {
                proof {
                    b.lemma_bounds();
                }
                b.insert(pos, cell);
            },
            LifeAlgoImpl::Cached(c) => {
                let ghost c0 = *c;
                proof {
                    c0.lemma_bounds();
                    lemma_insert_consistent(c0.cgrid(), c0.updates(), c0.width(), c0.height(), rule, pos, cell);
                }
                c.insert(pos, cell);
                proof {
                    c.lemma_bounds();
                    assert forall|r: LifeRule| stable(c0.cgrid(), c0.updates(), c0.width(), c0.height(), r) implies
                        stable(c.cgrid(), c.updates(), c.width(), c.height(), r) by {
                        lemma_insert_consistent(c0.cgrid(), c0.updates(), c0.width(), c0.height(), r, pos, cell);
                    }
                }
            },
        }
    }

    /// Advance one generation under `rule`. Every cell becomes `next_cell` of the old grid.
    /// The basic algorithm recounts the populations from the new grid; the cached one
    /// adds one or removes one for each cell that comes alive or dies.
    pub fn update(&mut self, rule: &LifeRule, pops: &mut LifePops)
        requires
            old(self).wf(),
            old(self).tracks(*rule),
            states_valid(old(self).rows()),
        ensures
            final(self).wf(),
            final(self).tracks(*rule),
            final(self).kind() == old(self).kind(),
            final(self).spec_size() == old(self).spec_size(),
            final(self).rows() == next_rows(
                *rule,
                old(self).rows(),
                old(self).spec_size().x as int,
                old(self).spec_size().y as int,
            ),
            old(self).kind() == LifeAlgoSelect::Basic ==> forall|f: u8|
                f < 16 ==> #[trigger] final(pops).view()[f as int] == pop_clamp(pop_rows(final(self).rows(), f)),
            *old(self) matches LifeAlgoImpl::Cached(c) ==> final(pops).view() == step_pops(c, old(pops).view(), *rule),
            old(self).spec_size().x * old(self).spec_size().y < 32767 && old(pops).view().len() == 16 && (forall|f: u8|
                f < 16 ==> #[trigger] old(pops).view()[f as int] == pop_clamp(pop_rows(old(self).rows(), f))) ==> forall|f: u8|
                f < 16 ==> #[trigger] final(pops).view()[f as int] == pop_clamp(pop_rows(final(self).rows(), f)),
    {
        match self {
            LifeAlgoImpl::Basic(b) => {
                proof {
                    b.lemma_bounds();
                }
                b.update(rule, pops);
                proof {
                    b.lemma_bounds();
                }
            },
            LifeAlgoImpl::Cached(c) => {
                let ghost c0 = *c;
                let ghost p0 = pops.view();
                proof {
                    c0.lemma_bounds();
                    c0.lemma_rows_wf();
                    lemma_step_consistent(c0.cgrid(), c0.updates(), pops.view(), c0.width(), c0.height(), *rule);
                }
                c.update(rule, pops);
                proof {
                    c.lemma_bounds();
                    c.lemma_rows_wf();
                    let w = c0.width();
                    let h = c0.height();
                    if w * h < 32767 && p0.len() == 16 && (forall|f: u8| f < 16 ==> #[trigger] p0[f as int] == pop_clamp(pop_rows(c0.rows(), f))) {
                        assert forall|f: u8| f < 16 implies #[trigger] p0[f as int] == pop_rows(cgrid_rows(c0.cgrid(), w, h), f) by {
                            consistency::lemma_pop_rows_le(c0.rows(), w, h, f);
                        }
                        consistency::lemma_step_pops(c0.cgrid(), c0.updates(), p0, w, h, *rule);
                        assert forall|f: u8| f < 16 implies #[trigger] pops.view()[f as int] == pop_clamp(pop_rows(c.rows(), f)) by {
                            consistency::lemma_pop_rows_le(c.rows(), w, h, f);
                        }
                    }
                }
            },
        }
    }
}

/// The populations after one cached generation from `c` (see `cached_step`).
pub open spec fn step_pops(c: LifeCached, pops: Seq<i16>, rule: LifeRule) -> Seq<i16> {
    let res = cached_step(c.cgrid(), c.updates(), pops, c.width(), c.height(), rule)->0;
    res.2
}

/// A cached grid whose populations count its live cells (and that has fewer than 32767
/// cells) steps to the populations the basic algorithm recounts from the next grid.
pub proof fn law_cached_pops_agree(c: LifeCached, pops: Seq<i16>, rule: LifeRule)
    requires
        LifeAlgoImpl::Cached(c).wf(),
        LifeAlgoImpl::Cached(c).tracks(rule),
        states_valid(c.rows()),
        c.width() * c.height() < 32767,
        pops.len() == 16,
        forall|f: u8| f < 16 ==> #[trigger] pops[f as int] == pop_clamp(pop_rows(c.rows(), f)),
    ensures
        forall|f: u8|
            f < 16 ==> #[trigger] step_pops(c, pops, rule)[f as int] == pop_clamp(
                pop_rows(next_rows(rule, c.rows(), c.width(), c.height()), f),
            ),
{
    c.lemma_bounds();
    c.lemma_rows_wf();
    let w = c.width();
    let h = c.height();
    lemma_step_consistent(c.cgrid(), c.updates(), pops, w, h, rule);
    assert forall|f: u8| f < 16 implies #[trigger] pops[f as int] == pop_rows(cgrid_rows(c.cgrid(), w, h), f) by {
        consistency::lemma_pop_rows_le(c.rows(), w, h, f);
    }
    consistency::lemma_step_pops(c.cgrid(), c.updates(), pops, w, h, rule);
    let n = next_rows(rule, c.rows(), w, h);
    assert(rows_wf(n, w, h));
    assert forall|f: u8| f < 16 implies #[trigger] step_pops(c, pops, rule)[f as int] == pop_clamp(pop_rows(n, f)) by {
        consistency::lemma_pop_rows_le(n, w, h, f);
    }
}

/// `k` generations of the cached algorithm from grid `g`, changes `ups` and populations
/// `pops`, each step as `LifeCached::update` makes it.
pub open spec fn cached_steps(g: CGrid, ups: Seq<Pos>, pops: Seq<i16>, w: int, h: int, rule: LifeRule, k: nat) -> CState
    decreases k,
{
    if k == 0 {
        (g, ups, pops)
    } else {
        let p = cached_steps(g, ups, pops, w, h, rule, (k - 1) as nat);
        cached_step(p.0, p.1, p.2, w, h, rule)->0
    }
}

/// The `k`-th generation of a `w` by `h` grid under `rule`, stepping by `next_rows`.
pub open spec fn generations(rule: LifeRule, g: Rows, w: int, h: int, k: nat) -> Rows
    decreases k,
{
    if k == 0 {
        g
    } else {
        next_rows(rule, generations(rule, g, w, h, (k - 1) as nat), w, h)
    }
}

/// Over any number of generations the cached algorithm agrees with the basic one: from a
/// grid whose changes are tracked and whose populations count its live cells, every
/// generation it makes is the basic algorithm's, and its populations still count the live
/// cells of each faction (on a grid of fewer than 32767 cells).
pub proof fn law_algorithms_agree_over_generations(
    g: CGrid,
    ups: Seq<Pos>,
    pops: Seq<i16>,
    w: int,
    h: int,
    rule: LifeRule,
    k: nat,
)
    requires
        counts_consistent(g, w, h),
        stable(g, ups, w, h, rule),
        states_valid(cgrid_rows(g, w, h)),
        0 <= w <= max_dim(),
        0 <= h <= max_dim(),
        w * h < 32767,
        pops.len() == 16,
        forall|f: u8| f < 16 ==> #[trigger] pops[f as int] == pop_rows(cgrid_rows(g, w, h), f),
    ensures
        ({
            let r = cached_steps(g, ups, pops, w, h, rule, k);
            &&& cgrid_rows(r.0, w, h) == generations(rule, cgrid_rows(g, w, h), w, h, k)
            &&& counts_consistent(r.0, w, h)
            &&& stable(r.0, r.1, w, h, rule)
            &&& states_valid(cgrid_rows(r.0, w, h))
            &&& r.2.len() == 16
            &&& forall|f: u8| f < 16 ==> #[trigger] r.2[f as int] == pop_rows(cgrid_rows(r.0, w, h), f)
        }),
    decreases k,
{
    if k > 0 {
        law_algorithms_agree_over_generations(g, ups, pops, w, h, rule, (k - 1) as nat);
        let p = cached_steps(g, ups, pops, w, h, rule, (k - 1) as nat);
        lemma_step_consistent(p.0, p.1, p.2, w, h, rule);
        consistency::lemma_step_pops(p.0, p.1, p.2, w, h, rule);
        let n = next_rows(rule, cgrid_rows(p.0, w, h), w, h);
        crate::life::grid::lemma_next_states_valid(rule, cgrid_rows(p.0, w, h), w, h);
    }
}

/// Every line of `s` is `w` long.
pub open spec fn text_rectangular(s: Seq<char>, w: int) -> bool {
    let ls = crate::text::split_on(s, '\n');
    forall|y: int| 0 <= y < ls.len() ==> (#[trigger] ls[y]).len() == w
}

impl LifeCached {
    /// The cell at `(x, y)`, dead outside the grid.
    fn cell_or_dead(&self, x: i64, y: i64) -> (c: Cell)
        requires
            self.wf(),
        ensures
            c == cell_at(self.rows(), x as int, y as int),
    {
        proof {
            self.lemma_bounds();
            self.lemma_rows_wf();
            lemma_dead_cell();
        }
        assert(packed(0, 0) == 0) by (bit_vector);
        if x < 0 || y < 0 || x > 32767 || y > 32767 {
            return Cell::new(0, 0);
        }
        match self.get(Pos { x: x as i16, y: y as i16 }) {
            Some(c) => *c,
            None => Cell::new(0, 0),
        }
    }

    /// `(count, faction)` of the neighbours of `pos`, counted afresh from the cells and voted
    /// row by row starting from `faction` (see `vote`).
    pub fn neighbors(&self, faction: u8, pos: (usize, usize)) -> (r: (u8, u8))
        requires
            self.wf(),
            pos.0 < 0x7fff_ffff,
            pos.1 < 0x7fff_ffff,
        ensures
            r == crate::life::grid::vote((0u8, faction), scan_cells(self.rows(), pos.0 as int, pos.1 as int)),
    {
        let x = pos.0 as i64;
        let y = pos.1 as i64;
        let ghost cs = scan_cells(self.rows(), pos.0 as int, pos.1 as int);
        let a0 = (0u8, faction);
        let a1 = basic::vote_step_exec(a0, self.cell_or_dead(x - 1, y - 1));
        let a2 = basic::vote_step_exec(a1, self.cell_or_dead(x, y - 1));
        let a3 = basic::vote_step_exec(a2, self.cell_or_dead(x + 1, y - 1));
        let a4 = basic::vote_step_exec(a3, self.cell_or_dead(x - 1, y));
        let a5 = basic::vote_step_exec(a4, self.cell_or_dead(x + 1, y));
        let a6 = basic::vote_step_exec(a5, self.cell_or_dead(x - 1, y + 1));
        let a7 = basic::vote_step_exec(a6, self.cell_or_dead(x, y + 1));
        let a8 = basic::vote_step_exec(a7, self.cell_or_dead(x + 1, y + 1));
        proof {
            reveal_with_fuel(crate::life::grid::vote, 9);
            assert(cs.drop_last().drop_last().drop_last().drop_last().drop_last().drop_last().drop_last().drop_last()
                =~= Seq::<Cell>::empty());
        }
        a8
    }
}

impl LifeCached {
    /// A cached grid from text: a space is a dead cell, any other character a live cell of
    /// faction 0, one line per row (every line as long as the first). Each live cell is
    /// entered as a change, so the first update rechecks its neighbourhood.
    pub fn from_text(value: &str) -> (r: LifeCached)
        requires
            text_rectangular(value@, crate::text::split_on(value@, '\n')[0].len() as int),
            crate::text::split_on(value@, '\n')[0].len() <= max_dim(),
            crate::text::split_on(value@, '\n').len() <= max_dim(),
        ensures
            r.wf(),
            r.spec_size() == (Pos {
                x: crate::text::split_on(value@, '\n')[0].len() as i16,
                y: crate::text::split_on(value@, '\n').len() as i16,
            }),
            r.rows() == crate::life::iter::text_rows(value@),
            counts_consistent(r.cgrid(), r.width(), r.height()),
            forall|rule: LifeRule| quiet(rule) ==> stable(r.cgrid(), r.updates(), r.width(), r.height(), rule),
    {
        let cs = crate::text::chars_of(value);
        let lines = crate::text::split_chars(&cs, '\n');
        let ghost ls = crate::text::split_on(value@, '\n');
        proof {
            crate::text::lemma_split_on_len(value@, '\n');
        }
        let w = lines[0].len() as i16;
        let h = lines.len() as i16;
        let ghost full = crate::life::iter::text_rows(value@);
        let mut c = LifeCached::new(Pos { x: w, y: h });
        proof {
            lemma_fresh_cached(c);
            c.lemma_bounds();
            assert(rows_wf(full, w as int, h as int));
            crate::life::transform::lemma_upto_ends(full, w as int, h as int);
        }
        let live = Cell::new(1, 0);
        proof {
            crate::life::lemma_packed(1, 0);
        }
        let mut y: i16 = 0;
        while y < h
            invariant
                lines@.len() == ls.len(),
                forall|k: int| 0 <= k < lines@.len() ==> (#[trigger] lines@[k])@ == ls[k],
                ls == crate::text::split_on(value@, '\n'),
                h == ls.len(),
                w == ls[0].len(),
                0 <= w <= max_dim(),
                0 <= h <= max_dim(),
                text_rectangular(value@, w as int),
                full == crate::life::iter::text_rows(value@),
                rows_wf(full, w as int, h as int),
                forall|yy: int| 0 <= yy < h ==> #[trigger] crate::life::transform::rows_upto(full, w as int, h as int, yy, w as int)
                    == crate::life::transform::rows_upto(full, w as int, h as int, yy + 1, 0),
                0 <= y <= h,
                live == cell_of(packed(1, 0)),
                live.spec_faction() == 0,
                c.wf(),
                c.spec_size() == (Pos { x: w, y: h }),
                c.width() == w,
                c.height() == h,
                c.rows() == crate::life::transform::rows_upto(full, w as int, h as int, y as int, 0),
                counts_consistent(c.cgrid(), w as int, h as int),
                forall|rule: LifeRule| quiet(rule) ==> stable(c.cgrid(), c.updates(), w as int, h as int, rule),
            decreases h - y,
        {
            let line = &lines[y as usize];
            proof {
                assert(line@ == ls[y as int]);
                assert(line@.len() == w);
            }
            let mut x: i16 = 0;
            while x < w
                invariant
                    line@ == ls[y as int],
                    line@.len() == w,
                    ls == crate::text::split_on(value@, '\n'),
                    0 <= w <= max_dim(),
                    0 <= h <= max_dim(),
                    full == crate::life::iter::text_rows(value@),
                    rows_wf(full, w as int, h as int),
                    0 <= y < h,
                    0 <= x <= w,
                    h == ls.len(),
                    live == cell_of(packed(1, 0)),
                    live.spec_faction() == 0,
                    c.wf(),
                    c.spec_size() == (Pos { x: w, y: h }),
                    c.width() == w,
                    c.height() == h,
                    c.rows() == crate::life::transform::rows_upto(full, w as int, h as int, y as int, x as int),
                    counts_consistent(c.cgrid(), w as int, h as int),
                    forall|rule: LifeRule| quiet(rule) ==> stable(c.cgrid(), c.updates(), w as int, h as int, rule),
                decreases w - x,
            {
                proof {
                    crate::life::transform::lemma_upto_step(full, w as int, h as int, y as int, x as int);
                    lemma_dead_cell();
                    assert(full[y as int][x as int] == (if ls[y as int][x as int] == ' ' {
                        dead_cell()
                    } else {
                        cell_of(packed(1, 0))
                    }));
                }
                if line[x as usize] != ' ' {
                    let ghost g0 = c.cgrid();
                    let ghost u0 = c.updates();
                    let q = Pos { x, y };
                    proof {
                        LifeRule::lemma_gol_quiet();
                        assert(quiet(LifeRule::gol_spec()));
                        lemma_insert_consistent(g0, u0, w as int, h as int, LifeRule::gol_spec(), q, live);
                    }
                    c.insert(q, live);
                    proof {
                        c.lemma_bounds();
                        assert forall|rule: LifeRule| quiet(rule) implies stable(c.cgrid(), c.updates(), w as int, h as int, rule) by {
                            lemma_insert_consistent(g0, u0, w as int, h as int, rule, q, live);
                        }
                    }
                }
                x = x + 1;
            }
            y = y + 1;
        }
        c
    }
}

proof fn reveal_basic_bounds(b: LifeBasic)
    requires
        b.wf(),
    ensures
        0 <= b.spec_size().x <= max_dim(),
        0 <= b.spec_size().y <= max_dim(),
{
    b.lemma_bounds();
}

proof fn reveal_cached_bounds(c: LifeCached)
    requires
        c.wf(),
    ensures
        0 <= c.spec_size().x <= max_dim(),
        0 <= c.spec_size().y <= max_dim(),
{
    c.lemma_bounds();
}

/// A fresh cached grid has consistent counts and, under a quiet rule, nothing to recheck.
proof fn lemma_fresh_cached(c: LifeCached)
    requires
        c.wf(),
        c.cgrid() == Seq::new((c.spec_size().x * c.spec_size().y) as nat, |i: int| (dead_cell(), 0i8)),
        c.updates() == Seq::<Pos>::empty(),
    ensures
        counts_consistent(c.cgrid(), c.width(), c.height()),
        c.rows() == dead_rows(c.spec_size().x as int, c.spec_size().y as int),
        forall|rule: LifeRule| quiet(rule) ==> stable(c.cgrid(), c.updates(), c.width(), c.height(), rule),
{
    c.lemma_bounds();
    lemma_dead_cell();
    let w = c.width();
    let h = c.height();
    let g = c.cgrid();
    let r = c.rows();
    assert(w == c.spec_size().x && h == c.spec_size().y);
    assert forall|y: int, x: int| 0 <= y < h && 0 <= x < w implies #[trigger] r[y][x] == dead_cell() by {
        lemma_cidx_bounds(w, h, x, y);
    }
    assert(r =~~= dead_rows(w, h));
    assert(single_faction(r));
    assert forall|x: int, y: int| in_grid(w, h, x, y) implies neighbor_count(r, x, y) == 0 by {
        let s = scan_cells(r, x, y);
        assert forall|i: int| 0 <= i < 8 implies !(#[trigger] s[i]).spec_is_alive() by {}
        lemma_count8(s);
    }
    assert forall|x: int, y: int| in_grid(w, h, x, y) implies #[trigger] g[cidx(w, x, y)].1 == neighbor_count(r, x, y) by {
        lemma_cidx_bounds(w, h, x, y);
    }
    assert forall|rule: LifeRule| quiet(rule) implies stable(g, Seq::<Pos>::empty(), w, h, rule) by {
        assert(packed(0, 0) == 0) by (bit_vector);
        assert forall|x: int, y: int| in_grid(w, h, x, y) implies #[trigger] crate::life::grid::next_cell(rule, r, x, y) == r[y][x] by {
            lemma_next_cell_single(rule, r, x, y);
            let s = scan_cells(r, x, y);
            assert forall|i: int| 0 <= i < 8 implies !(#[trigger] s[i]).spec_is_alive() by {}
            lemma_count8(s);
        }
    }
}

} // verus!
