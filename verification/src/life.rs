use vstd::prelude::*;

pub mod pos;
pub mod rule;
pub mod grid;
pub mod algo;
pub mod transform;
pub mod pattern_lib;
pub mod file_format;
pub mod rand;
pub mod iter;
pub use algo::LifeAlgoSelect;
pub use rule::LifeRule;
pub use pos::{pos, Pos};

use algo::basic::{max_dim, pop_clamp};
use algo::{dead_rows, quiet, step_pops, LifeAlgoImpl};
use grid::{in_grid, next_rows, pop_rows, rows_wf, states_valid, Rows};
use pos::clamp_i16;

verus! {

/// A faction (team) number; only the low four bits are stored in a cell.
pub type Faction = u8;

/// Number of factions a population table tracks.
pub const FACTION_MAX: Faction = 16;

/// One cell of a life grid: the low nibble is the state, the high nibble the faction.
#[derive(PartialEq, Eq, Debug, Hash, Clone, Copy, Default, Structural)]
pub struct Cell {
    value: u8,
}

/// The cell whose byte is `v`.
pub closed spec fn cell_of(v: u8) -> Cell {
    Cell { value: v }
}

pub broadcast proof fn lemma_cell_of_value(v: u8)
    ensures
        #[trigger] cell_of(v).spec_value() == v,
{
}

pub broadcast proof fn lemma_value_of_cell(c: Cell)
    ensures
        #[trigger] cell_of(c.spec_value()) == c,
{
}

pub broadcast group group_cell {
    lemma_cell_of_value,
    lemma_value_of_cell,
}

/// The byte that `Cell::new(state, faction)` stores.
pub open spec fn packed(state: u8, faction: u8) -> u8 {
    state | ((faction << 4u8) as u8)
}

/// The all-zero cell: dead, faction 0.
pub open spec fn dead_cell() -> Cell {
    cell_of(0)
}

impl Cell {
    /// The raw byte of the cell.
    pub closed spec fn spec_value(self) -> u8 {
        self.value
    }

    pub open spec fn spec_state(self) -> u8 {
        self.spec_value() & 0xF
    }

    pub open spec fn spec_faction(self) -> u8 {
        (self.spec_value() & 0xF0) >> 4u8
    }

    pub open spec fn spec_is_alive(self) -> bool {
        self.spec_state() == 1
    }

    pub open spec fn spec_is_dead(self) -> bool {
        self.spec_state() == 0
    }

    pub fn new(state: u8, faction: u8) -> (c: Self)
        ensures
            c == cell_of(packed(state, faction)),
    {
        Self { value: state | (faction << 4u8) }
    }

    /// The state is 1 (a live cell); refractory states are neither alive nor dead.
    pub fn is_alive(&self) -> (r: bool)
        ensures
            r == self.spec_is_alive(),
    {
        self.value & 0xF == 0x1
    }

    /// The state is 0; refractory states are neither alive nor dead.
    pub fn is_dead(&self) -> (r: bool)
        ensures
            r == self.spec_is_dead(),
    {
        self.value & 0xF == 0
    }

    pub fn get_state(&self) -> (r: u8)
        ensures
            r == self.spec_state(),
            r < 16,
    {
        let v = self.value;
        assert(v & 0xF < 16) by (bit_vector);
        v & 0xF
    }

    pub fn get_faction(&self) -> (r: u8)
        ensures
            r == self.spec_faction(),
            r < 16,
    {
        let v = self.value;
        assert((v & 0xF0) >> 4u8 < 16) by (bit_vector);
        (v & 0xF0) >> 4u8
    }

    /// Replace the state nibble (bits of `state` above the nibble spill into the faction).
    pub fn set_state(&mut self, state: u8)
        ensures
            *final(self) == cell_of((old(self).spec_value() & 0xF0) | state),
    {
        self.value = (self.value & 0xF0) | state;
    }

    /// Replace the faction nibble (only the low four bits of `faction` are kept).
    pub fn set_faction(&mut self, faction: u8)
        ensures
            *final(self) == cell_of((old(self).spec_value() & 0xF) | ((faction << 4u8) as u8)),
    {
        self.value = (self.value & 0xF) | (faction << 4u8);
    }

    /// The raw byte of the cell.
    pub(crate) fn value(&self) -> (v: u8)
        ensures
            v == self.spec_value(),
    {
        self.value
    }

    /// The cell whose byte is `value`.
    pub fn from_value(value: u8) -> (c: Self)
        ensures
            c == cell_of(value),
    {
        Self { value }
    }
}

/// A state and a faction, each below 16, survive packing.
pub proof fn lemma_packed(state: u8, faction: u8)
    requires
        state < 16,
        faction < 16,
    ensures
        cell_of(packed(state, faction)).spec_state() == state,
        cell_of(packed(state, faction)).spec_faction() == faction,
{
    assert((state | ((faction << 4u8) as u8)) & 0xF == state) by (bit_vector)
        requires
            state < 16,
            faction < 16,
    ;
    assert(((state | ((faction << 4u8) as u8)) & 0xF0) >> 4u8 == faction) by (bit_vector)
        requires
            state < 16,
            faction < 16,
    ;
}

/// Packing a state below 16 keeps the faction's low four bits.
pub proof fn lemma_packed_faction(state: u8, faction: u8)
    requires
        state < 16,
    ensures
        cell_of(packed(state, faction)).spec_faction() == faction % 16,
        cell_of(packed(state, faction)).spec_state() == state,
{
    assert(((state | ((faction << 4u8) as u8)) & 0xF0) >> 4u8 == faction % 16) by (bit_vector)
        requires
            state < 16,
    ;
    assert((state | ((faction << 4u8) as u8)) & 0xF == state) by (bit_vector)
        requires
            state < 16,
    ;
}

/// A cell is determined by its state and faction.
pub proof fn lemma_cell_ext(a: Cell, b: Cell)
    requires
        a.spec_state() == b.spec_state(),
        a.spec_faction() == b.spec_faction(),
    ensures
        a == b,
{
    let x = a.spec_value();
    let y = b.spec_value();
    assert(x == y) by (bit_vector)
        requires
            x & 0xF == y & 0xF,
            (x & 0xF0) >> 4u8 == (y & 0xF0) >> 4u8,
    ;
}

/// The byte of a cell is its state and faction packed together.
pub proof fn lemma_cell_packed(c: Cell)
    ensures
        c == cell_of(packed(c.spec_state(), c.spec_faction())),
{
    let x = c.spec_value();
    assert(x == ((x & 0xF) | ((((x & 0xF0) >> 4u8) << 4u8) as u8))) by (bit_vector);
}

/// A cell is made of its state and its faction.
pub proof fn lemma_cell_parts(c: Cell)
    ensures
        c == cell_of(packed(c.spec_state(), c.spec_faction())),
{
    let v = c.spec_value();
    assert(v == ((v & 0xF) | ((((v & 0xF0) >> 4u8) << 4u8) as u8))) by (bit_vector);
    assert(cell_of(c.spec_value()) == c);
}

pub proof fn lemma_dead_cell()
    ensures
        dead_cell().spec_state() == 0,
        dead_cell().spec_faction() == 0,
        !dead_cell().spec_is_alive(),
{
    assert(0u8 & 0xF == 0) by (bit_vector);
    assert((0u8 & 0xF0) >> 4u8 == 0) by (bit_vector);
}

impl From<u8> for Cell {
    fn from(value: u8) -> (c: Self) {
        Self { value }
    }
}

impl vstd::std_specs::convert::FromSpecImpl<u8> for Cell {
    open spec fn obeys_from_spec() -> bool {
        true
    }

    open spec fn from_spec(v: u8) -> Self {
        cell_of(v)
    }
}

/// Live-cell counts per faction.
#[derive(Clone, Copy)]
pub struct LifePops {
    pops: [i16; 16],
}

impl LifePops {
    pub closed spec fn view(&self) -> Seq<i16> {
        self.pops@
    }

    pub fn new() -> (p: Self)
        ensures
            p.view() == Seq::new(16, |i: int| 0i16),
    {
        let p = Self { pops: [0i16; 16] };
        assert(p.view() =~= Seq::new(16, |i: int| 0i16));
        p
    }

    pub fn get(&self, faction: u8) -> (r: i16)
        requires
            faction < 16,
        ensures
            r == self.view()[faction as int],
    {
        self.pops[faction as usize]
    }

    /// Add `amount` to the count of `faction`, clamped at the bounds of `i16`.
    pub fn add(&mut self, faction: u8, amount: i16)
        requires
            faction < 16,
        ensures
            final(self).view() == old(self).view().update(
                faction as int,
                pos::clamp_i16(old(self).view()[faction as int] + amount),
            ),
    {
        let cur = self.pops[faction as usize];
        let v = pos::saturating_add_i16(cur, amount);
        self.pops[faction as usize] = v;
    }
}

impl Default for LifePops {
    fn default() -> (p: Self)
        ensures
            p.view() == Seq::new(16, |i: int| 0i16),
    {
        Self::new()
    }
}


/// Sixteen zero counts.
pub open spec fn zero_pops() -> Seq<i16> {
    Seq::new(16, |i: int| 0i16)
}

/// The populations after a cell `old` is replaced by a different cell `new`: the old
/// cell's faction loses one if it was alive, the new cell's faction gains one if it is
/// alive (each clamped to `i16`).
pub open spec fn pops_after(p: Seq<i16>, old: Cell, new: Cell) -> Seq<i16> {
    let p1 = if old.spec_is_alive() {
        p.update(old.spec_faction() as int, clamp_i16(p[old.spec_faction() as int] - 1))
    } else {
        p
    };
    if new.spec_is_alive() {
        p1.update(new.spec_faction() as int, clamp_i16(p1[new.spec_faction() as int] + 1))
    } else {
        p1
    }
}

/// One write of a cell, as `Life::insert` makes it: on the grid, the cell is replaced and
/// the populations adjusted when it changes; off the grid, nothing happens.
pub open spec fn write_step(st: (Rows, Seq<i16>), w: (Pos, Cell)) -> (Rows, Seq<i16>) {
    let r = st.0;
    let p = st.1;
    let q = w.0;
    let c = w.1;
    if 0 <= q.y < r.len() && 0 <= q.x < r[q.y as int].len() {
        let old = r[q.y as int][q.x as int];
        (
            r.update(q.y as int, r[q.y as int].update(q.x as int, c)),
            if old != c {
                pops_after(p, old, c)
            } else {
                p
            },
        )
    } else {
        st
    }
}

/// The writes `ws`, in order.
pub open spec fn apply_writes(st: (Rows, Seq<i16>), ws: Seq<(Pos, Cell)>) -> (Rows, Seq<i16>)
    decreases ws.len(),
{
    if ws.len() == 0 {
        st
    } else {
        write_step(apply_writes(st, ws.drop_last()), ws.last())
    }
}

/// Making the writes `a` then `b` is making the writes `a + b`.
pub proof fn lemma_apply_concat(st: (Rows, Seq<i16>), a: Seq<(Pos, Cell)>, b: Seq<(Pos, Cell)>)
    ensures
        apply_writes(st, a + b) == apply_writes(apply_writes(st, a), b),
    decreases b.len(),
{
    if b.len() == 0 {
        assert(a + b =~= a);
    } else {
        lemma_apply_concat(st, a, b.drop_last());
        assert((a + b).drop_last() =~= a + b.drop_last());
        assert((a + b).last() == b.last());
    }
}

/// The options a `Life` is made with.
#[derive(Clone, Copy)]
pub struct LifeOptions {
    pub algo: LifeAlgoSelect,
    pub rule: LifeRule,
}

impl Default for LifeOptions {
    fn default() -> (o: Self)
        ensures
            o.algo == LifeAlgoSelect::Basic,
            o.rule.spec_lut() == gol_lut(),
    {
        Self { algo: LifeAlgoSelect::Basic, rule: LifeRule::gol() }
    }
}

/// The tables of Conway's Game of Life, B3/S23.
pub open spec fn gol_lut() -> Seq<u32> {
    seq![0b1_00_00_00u32, 0b01_01_00_00u32, 0u32, 0u32]
}

/// A grid of cells with the rule it evolves by, its per-faction populations and its
/// generation count.
#[derive(Clone)]
pub struct Life {
    algo: LifeAlgoImpl,
    rule: LifeRule,
    pops: LifePops,
    generation: u64,
}

impl Life {
    /// The grid and the algorithm that steps it.
    pub closed spec fn engine(self) -> LifeAlgoImpl {
        self.algo
    }

    pub closed spec fn spec_rule(self) -> LifeRule {
        self.rule
    }

    /// The population table.
    pub closed spec fn pops_view(self) -> Seq<i16> {
        self.pops.view()
    }

    pub closed spec fn spec_generation(self) -> u64 {
        self.generation
    }

    /// The cells, row by row.
    pub open spec fn rows(self) -> Rows {
        self.engine().rows()
    }

    pub open spec fn spec_size(self) -> Pos {
        self.engine().spec_size()
    }

    pub open spec fn kind(self) -> LifeAlgoSelect {
        self.engine().kind()
    }

    pub open spec fn width(self) -> int {
        self.spec_size().x as int
    }

    pub open spec fn height(self) -> int {
        self.spec_size().y as int
    }

    /// `p` lies on the grid.
    pub open spec fn contains(self, p: Pos) -> bool {
        in_grid(self.width(), self.height(), p.x as int, p.y as int)
    }

    /// The grid's invariant: the algorithm's own, and for the cached algorithm a list of
    /// changes that covers every cell the rule would change next.
    pub open spec fn wf(self) -> bool {
        &&& self.engine().wf()
        &&& self.engine().tracks(self.spec_rule())
        &&& self.pops_view().len() == 16
    }

    /// A position the grid can be asked about: the basic algorithm takes no negative
    /// coordinate.
    pub open spec fn pos_ok(self, p: Pos) -> bool {
        self.kind() == LifeAlgoSelect::Basic ==> p.x >= 0 && p.y >= 0
    }

    /// A cell the grid can take at `p`: the cached algorithm holds only faction 0.
    pub open spec fn cell_ok(self, p: Pos, c: Cell) -> bool {
        self.kind() == LifeAlgoSelect::Cached && self.contains(p) ==> c.spec_faction() == 0
    }

    /// A fresh grid: `size` dead cells under `rule`, zero populations, generation 0.
    pub open spec fn is_fresh(self, algo: LifeAlgoSelect, size: Pos, rule: LifeRule) -> bool {
        &&& self.wf()
        &&& self.kind() == algo
        &&& self.spec_size() == size
        &&& self.rows() == dead_rows(size.x as int, size.y as int)
        &&& self.spec_rule() == rule
        &&& self.pops_view() == zero_pops()
        &&& self.spec_generation() == 0
    }

    pub proof fn lemma_wf(self)
        requires
            self.wf(),
        ensures
            rows_wf(self.rows(), self.width(), self.height()),
            0 <= self.width() <= max_dim(),
            0 <= self.height() <= max_dim(),
    {
        self.engine().lemma_wf();
    }

    /// A grid of `size` for `options.algo` under `options.rule`. The cached algorithm
    /// needs a rule under which an empty neighbourhood gives no birth.
    pub fn new_ex(size: Pos, options: LifeOptions) -> (r: Self)
        requires
            options.algo != LifeAlgoSelect::Sprase,
            options.algo == LifeAlgoSelect::Cached ==> quiet(options.rule),
            0 <= size.x <= max_dim(),
            0 <= size.y <= max_dim(),
        ensures
            r.is_fresh(options.algo, size, options.rule),
    {
        let algo = LifeAlgoImpl::new(options.algo, size);
        let pops = LifePops::new();
        assert(pops.view() =~= zero_pops());
        Self { algo, rule: options.rule, pops, generation: 0 }
    }

    /// A basic grid of `size` under Conway's rule.
    pub fn new(size: Pos) -> (r: Self)
        requires
            0 <= size.x <= max_dim(),
            0 <= size.y <= max_dim(),
        ensures
            r.is_fresh(LifeAlgoSelect::Basic, size, r.spec_rule()),
            r.spec_rule().spec_lut() == gol_lut(),
            r.spec_rule() == LifeRule::gol_spec(),
    {
        Self::new_ex(size, LifeOptions { algo: LifeAlgoSelect::Basic, rule: LifeRule::gol() })
    }

    /// A basic grid of `size` under `rule`.
    pub fn new_rule(size: Pos, rule: LifeRule) -> (r: Self)
        requires
            0 <= size.x <= max_dim(),
            0 <= size.y <= max_dim(),
        ensures
            r.is_fresh(LifeAlgoSelect::Basic, size, rule),
    {
        Self::new_ex(size, LifeOptions { algo: LifeAlgoSelect::Basic, rule })
    }

    pub fn get_rule(&self) -> (r: &LifeRule)
        ensures
            *r == self.spec_rule(),
    {
        &self.rule
    }

    pub fn get_generation(&self) -> (g: u64)
        ensures
            g == self.spec_generation(),
    {
        self.generation
    }

    pub fn size(&self) -> (p: Pos)
        ensures
            p == self.spec_size(),
    {
        self.algo.size()
    }

    /// The algorithm the grid is stepped by.
    pub fn algo_kind(&self) -> (a: LifeAlgoSelect)
        ensures
            a == self.kind(),
    {
        match &self.algo {
            LifeAlgoImpl::Basic(_) => LifeAlgoSelect::Basic,
            LifeAlgoImpl::Cached(_) => LifeAlgoSelect::Cached,
        }
    }

    /// Whether every cell is in one of the four states the rules know: `update` may be
    /// called exactly when this holds.
    pub fn states_ok(&self) -> (r: bool)
        requires
            self.wf(),
        ensures
            r == states_valid(self.rows()),
    {
        proof {
            self.lemma_wf();
        }
        let size = self.size();
        let ghost rows = self.rows();
        let mut y: i16 = 0;
        while y < size.y
            invariant
                self.wf(),
                size == self.spec_size(),
                rows == self.rows(),
                rows_wf(rows, size.x as int, size.y as int),
                0 <= size.x,
                0 <= y <= size.y,
                forall|yy: int, x: int| 0 <= yy < y && 0 <= x < size.x ==> (#[trigger] rows[yy][x]).spec_state() < 4,
            decreases size.y - y,
        {
            let mut x: i16 = 0;
            while x < size.x
                invariant
                    self.wf(),
                    size == self.spec_size(),
                    rows == self.rows(),
                    rows_wf(rows, size.x as int, size.y as int),
                    0 <= y < size.y,
                    0 <= x <= size.x,
                    forall|yy: int, xx: int| 0 <= yy < y && 0 <= xx < size.x ==> (#[trigger] rows[yy][xx]).spec_state() < 4,
                    forall|xx: int| 0 <= xx < x ==> (#[trigger] rows[y as int][xx]).spec_state() < 4,
                decreases size.x - x,
            {
                match self.get_cell(Pos { x, y }) {
                    Some(c) => {
                        if c.get_state() >= 4 {
                            proof {
                                assert(rows[y as int].len() == size.x);
                                assert(!(rows[y as int][x as int].spec_state() < 4));
                            }
                            return false;
                        }
                    },
                    None => {},
                }
                x = x + 1;
            }
            y = y + 1;
        }
        true
    }

    /// The cell at `pos`, or `None` off the grid.
    pub fn get_cell(&self, pos: Pos) -> (r: Option<&Cell>)
        requires
            self.wf(),
            self.pos_ok(pos),
        ensures
            match r {
                Some(c) => self.contains(pos) && *c == self.rows()[pos.y as int][pos.x as int],
                None => !self.contains(pos),
            },
    {
        self.algo.get(pos)
    }

    /// The population of `faction`.
    pub fn get_pop(&self, faction: u8) -> (n: i16)
        requires
            faction < 16,
        ensures
            n == self.pops_view()[faction as int],
    {
        self.pops.get(faction)
    }

    /// Set the cell at `pos` when it lies on the grid and differs from the cell there,
    /// adjusting the populations; otherwise nothing changes.
    pub fn insert(&mut self, pos: Pos, cell: Cell)
        requires
            old(self).wf(),
            old(self).pos_ok(pos),
            old(self).cell_ok(pos, cell),
        ensures
            final(self).wf(),
            final(self).kind() == old(self).kind(),
            final(self).spec_size() == old(self).spec_size(),
            final(self).spec_rule() == old(self).spec_rule(),
            final(self).spec_generation() == old(self).spec_generation(),
            final(self).rows() == (if old(self).contains(pos) {
                old(self).rows().update(pos.y as int, old(self).rows()[pos.y as int].update(pos.x as int, cell))
            } else {
                old(self).rows()
            }),
            final(self).pops_view() == (if old(self).contains(pos) && old(self).rows()[pos.y as int][pos.x as int] != cell {
                pops_after(old(self).pops_view(), old(self).rows()[pos.y as int][pos.x as int], cell)
            } else {
                old(self).pops_view()
            }),
            (final(self).rows(), final(self).pops_view()) == write_step((old(self).rows(), old(self).pops_view()), (pos, cell)),
            old(self).counted() && old(self).width() * old(self).height() < 32767 ==> final(self).counted(),
    {
        proof {
            self.lemma_wf();
        }
        let ghost r0 = self.rows();
        let ghost p0 = self.pops_view();
        let ghost w0 = self.width();
        let ghost h0 = self.height();
        let ghost was_counted = self.counted();
        let found = match self.algo.get(pos) {
            Some(c) => Some(*c),
            None => None,
        };
        if let Some(old_cell) = found {
            if old_cell != cell {
                if old_cell.is_alive() {
                    self.pops.add(old_cell.get_faction(), -1);
                }
                if cell.is_alive() {
                    self.pops.add(cell.get_faction(), 1);
                }
                self.algo.insert(pos, cell, Ghost(self.rule));
            } else {
                proof {
                    self.lemma_wf();
                    assert(self.rows()[pos.y as int].update(pos.x as int, cell) =~= self.rows()[pos.y as int]);
                    assert(self.rows().update(pos.y as int, self.rows()[pos.y as int]) =~= self.rows());
                }
            }
        }
        proof {
            if was_counted && w0 * h0 < 32767 && 0 <= pos.x < w0 && 0 <= pos.y < h0 {
                lemma_counted_insert(r0, p0, w0, h0, pos.y as int, pos.x as int, cell, self.pops_view());
            }
        }
    }

    /// Advance one generation: every cell becomes `next_cell` of the old grid and the
    /// generation count goes up by one (saturating). The basic algorithm recounts the
    /// populations; the cached one adjusts them cell by cell (see `step_pops`).
    pub fn update(&mut self)
        requires
            old(self).wf(),
            states_valid(old(self).rows()),
        ensures
            final(self).wf(),
            final(self).kind() == old(self).kind(),
            final(self).spec_size() == old(self).spec_size(),
            final(self).spec_rule() == old(self).spec_rule(),
            final(self).rows() == next_rows(old(self).spec_rule(), old(self).rows(), old(self).width(), old(self).height()),
            final(self).spec_generation() == (if old(self).spec_generation() == u64::MAX {
                u64::MAX
            } else {
                (old(self).spec_generation() + 1) as u64
            }),
            old(self).kind() == LifeAlgoSelect::Basic ==> forall|f: u8|
                f < 16 ==> #[trigger] final(self).pops_view()[f as int] == pop_clamp(pop_rows(final(self).rows(), f)),
            old(self).engine() matches LifeAlgoImpl::Cached(c) ==> final(self).pops_view() == step_pops(
                c,
                old(self).pops_view(),
                old(self).spec_rule(),
            ),
            old(self).counted() && old(self).width() * old(self).height() < 32767 ==> final(self).counted(),
    {
        self.algo.update(&self.rule, &mut self.pops);
        self.generation = self.generation.saturating_add(1);
    }
}

impl Life {
    /// Each population is the number of live cells of its faction, clamped to `i16`.
    pub open spec fn counted(self) -> bool {
        forall|f: u8| f < 16 ==> #[trigger] self.pops_view()[f as int] == pop_clamp(pop_rows(self.rows(), f))
    }
}

/// The populations count the live cells of each faction.
pub open spec fn counted_state(st: (Rows, Seq<i16>)) -> bool {
    &&& st.1.len() == 16
    &&& forall|f: u8| f < 16 ==> #[trigger] st.1[f as int] == pop_clamp(pop_rows(st.0, f))
}

/// A history of changes to a grid: writes of cells (as `insert` and `paste` make them) and
/// generations (as the basic `update` makes them, recounting the populations).
pub enum GridEvent {
    Write(Pos, Cell),
    Step,
}

/// The grid and populations after the events `es` under `rule`.
pub open spec fn after_events(st: (Rows, Seq<i16>), es: Seq<GridEvent>, rule: LifeRule, w: int, h: int) -> (Rows, Seq<i16>)
    decreases es.len(),
{
    if es.len() == 0 {
        st
    } else {
        let prev = after_events(st, es.drop_last(), rule, w, h);
        match es.last() {
            GridEvent::Write(p, c) => write_step(prev, (p, c)),
            GridEvent::Step => {
                let n = next_rows(rule, prev.0, w, h);
                (n, Seq::new(16, |f: int| pop_clamp(pop_rows(n, f as u8))))
            },
        }
    }
}

/// Over any history of writes and generations, a grid of fewer than 32767 cells whose
/// populations count its live cells keeps them counted.
pub proof fn law_populations_stay_counted(st: (Rows, Seq<i16>), es: Seq<GridEvent>, rule: LifeRule, w: int, h: int)
    requires
        rows_wf(st.0, w, h),
        0 <= w,
        0 <= h,
        w * h < 32767,
        counted_state(st),
    ensures
        rows_wf(after_events(st, es, rule, w, h).0, w, h),
        counted_state(after_events(st, es, rule, w, h)),
    decreases es.len(),
{
    if es.len() > 0 {
        law_populations_stay_counted(st, es.drop_last(), rule, w, h);
        let prev = after_events(st, es.drop_last(), rule, w, h);
        match es.last() {
            GridEvent::Write(p, c) => {
                if 0 <= p.y < prev.0.len() && 0 <= p.x < prev.0[p.y as int].len() {
                    let y = p.y as int;
                    let x = p.x as int;
                    lemma_counted_insert(
                        prev.0,
                        prev.1,
                        w,
                        h,
                        y,
                        x,
                        c,
                        if prev.0[y][x] != c {
                            pops_after(prev.1, prev.0[y][x], c)
                        } else {
                            prev.1
                        },
                    );
                    let r2 = prev.0.update(y, prev.0[y].update(x, c));
                    assert(rows_wf(r2, w, h)) by {
                        assert forall|yy: int| 0 <= yy < h implies (#[trigger] r2[yy]).len() == w by {
                            if yy != y {
                                assert(r2[yy] == prev.0[yy]);
                            }
                        }
                    }
                    lemma_faction_bound(c);
                    lemma_faction_bound(prev.0[y][x]);
                    let p1 = pops_after(prev.1, prev.0[y][x], c);
                    assert(p1.len() == 16);
                }
            },
            GridEvent::Step => {
                let n = next_rows(rule, prev.0, w, h);
                assert(rows_wf(n, w, h));
            },
        }
    }
}

/// The basic and the cached algorithm agree: from the same cells under the same rule both
/// step to `next_rows`, and when the cached grid's populations count its live cells (on a
/// grid of fewer than 32767 cells) its step gives the populations that the basic step
/// recounts from the next grid.
pub proof fn law_algorithms_agree(basic: Life, cached: Life)
    requires
        basic.wf(),
        cached.wf(),
        basic.kind() == LifeAlgoSelect::Basic,
        cached.kind() == LifeAlgoSelect::Cached,
        basic.spec_size() == cached.spec_size(),
        basic.rows() == cached.rows(),
        basic.spec_rule() == cached.spec_rule(),
        states_valid(cached.rows()),
        cached.counted(),
        cached.width() * cached.height() < 32767,
    ensures
        cached.engine() matches LifeAlgoImpl::Cached(c) && forall|f: u8|
            f < 16 ==> #[trigger] step_pops(c, cached.pops_view(), cached.spec_rule())[f as int] == pop_clamp(
                pop_rows(next_rows(basic.spec_rule(), basic.rows(), basic.width(), basic.height()), f),
            ),
{
    basic.lemma_wf();
    cached.lemma_wf();
    if let LifeAlgoImpl::Cached(c) = cached.engine() {
        c.lemma_bounds();
        algo::law_cached_pops_agree(c, cached.pops_view(), cached.spec_rule());
    }
}

/// A faction read from a cell is below 16.
pub proof fn lemma_faction_bound(c: Cell)
    ensures
        c.spec_faction() < 16,
        c.spec_state() < 16,
{
    let v = c.spec_value();
    assert((v & 0xF0) >> 4u8 < 16) by (bit_vector);
    assert(v & 0xF < 16) by (bit_vector);
}

/// Writing a cell over a dead one keeps the populations counting the live cells.
pub proof fn lemma_counted_fill(r: Rows, p: Seq<i16>, y: int, x: int, c: Cell, p2: Seq<i16>)
    requires
        p.len() == 16,
        forall|f: u8| f < 16 ==> #[trigger] p[f as int] == pop_clamp(pop_rows(r, f)),
        0 <= y < r.len(),
        0 <= x < r[y].len(),
        r[y][x] == dead_cell(),
        p2 == (if r[y][x] != c {
            pops_after(p, r[y][x], c)
        } else {
            p
        }),
    ensures
        forall|f: u8| f < 16 ==> #[trigger] p2[f as int] == pop_clamp(pop_rows(r.update(y, r[y].update(x, c)), f)),
{
    lemma_dead_cell();
    lemma_faction_bound(c);
    assert forall|f: u8| f < 16 implies #[trigger] p2[f as int] == pop_clamp(pop_rows(r.update(y, r[y].update(x, c)), f)) by {
        grid::lemma_pop_rows_update(r, y, x, c, f);
        algo::basic::lemma_pop_clamp_step(pop_rows(r, f));
    }
}

/// In a grid of fewer than 32767 cells, writing any cell keeps the populations counting
/// the live cells.
pub proof fn lemma_counted_insert(r: Rows, p: Seq<i16>, w: int, h: int, y: int, x: int, c: Cell, p2: Seq<i16>)
    requires
        p2 == (if r[y][x] != c {
            pops_after(p, r[y][x], c)
        } else {
            p
        }),
        p.len() == 16,
        rows_wf(r, w, h),
        w >= 0,
        w * h < 32767,
        forall|f: u8| f < 16 ==> #[trigger] p[f as int] == pop_clamp(pop_rows(r, f)),
        0 <= y < h,
        0 <= x < w,
    ensures
        forall|f: u8| f < 16 ==> #[trigger] p2[f as int] == pop_clamp(pop_rows(r.update(y, r[y].update(x, c)), f)),
{
    let old = r[y][x];
    let r2 = r.update(y, r[y].update(x, c));
    lemma_faction_bound(c);
    lemma_faction_bound(old);
    assert(rows_wf(r2, w, h));
    assert forall|f: u8| f < 16 implies #[trigger] p2[f as int] == pop_clamp(pop_rows(r2, f)) by {
        grid::lemma_pop_rows_update(r, y, x, c, f);
        algo::consistency::lemma_pop_rows_le(r, w, h, f);
        algo::consistency::lemma_pop_rows_le(r2, w, h, f);
        if old == c {
            assert(r2 =~~= r) by {
                assert(r[y].update(x, c) =~= r[y]);
            }
        }
    }
}

impl Default for Life {
    /// An 8 by 8 basic grid under Conway's rule.
    fn default() -> (r: Self)
        ensures
            r.is_fresh(LifeAlgoSelect::Basic, Pos { x: 8, y: 8 }, r.spec_rule()),
            r.spec_rule().spec_lut() == gol_lut(),
    {
        Self::new(Pos { x: 8, y: 8 })
    }
}

} // verus!
