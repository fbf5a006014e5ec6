use vstd::prelude::*;

use quad_rand::RandGenerator;

use crate::life::pos::{area_positions, in_i16, Pos};
use crate::life::{
    apply_writes, cell_of, dead_cell, lemma_apply_concat, lemma_packed, packed, write_step, Cell, Life, LifeAlgoSelect,
};

verus! {

/// The numbers a `quad_rand::RandGenerator` seeded with `seed` gives in its first `n`
/// draws. The generator is deterministic: its state after `srand(seed)` and each step are
/// fixed functions of the seed.
pub uninterp spec fn seeded_draws(seed: u64, n: nat) -> Seq<u32>;

/// `quad_rand::RandGenerator::new`, `srand(seed)`, then `rand` `n` times: the contract
/// claims that the numbers are `seeded_draws(seed, n)`, `n` of them; which numbers those are
/// is left to the name.
#[verifier::external_body]
pub(crate) fn draw_seeded(seed: u64, n: usize) -> (r: Vec<u32>)
    ensures
        r@ == seeded_draws(seed, n as nat),
        r@.len() == n,
{
    let rand = RandGenerator::new();
    rand.srand(seed);
    (0..n).map(|_| rand.rand()).collect()
}

/// `quad_rand::srand`: reseeds the global generator (nothing is claimed).
pub assume_specification[ quad_rand::srand ](seed: u64);

/// `quad_rand::rand`: the next number of the global generator; any `u32`.
pub assume_specification[ quad_rand::rand ]() -> (r: u32);

/// The symmetry of a random fill (<https://conwaylife.com/wiki/Static_symmetry>).
#[allow(non_camel_case_types)]
#[derive(Clone, Copy, Debug, PartialEq, Eq, Structural)]
pub enum RandSymmetry {
    C1,
    C2_1,
    C2_2,
    C2_4,
    C4_1,
    C4_4,
    D2_1,
    D2_2,
}

impl Default for RandSymmetry {
    fn default() -> (s: Self)
        ensures
            s == RandSymmetry::C1,
    {
        RandSymmetry::C1
    }
}

/// The cell a random number gives: a live cell below a third of the range.
pub open spec fn random_cell(v: u32) -> Cell {
    if v < u32::MAX / 3 {
        cell_of(packed(1, 0))
    } else {
        dead_cell()
    }
}

/// The cell a random number gives.
pub fn cell_from_random(v: u32) -> (c: Cell)
    ensures
        c == random_cell(v),
{
    assert(packed(0, 0) == 0) by (bit_vector);
    Cell::new(
        if v < u32::MAX / 3 {
            1
        } else {
            0
        },
        0,
    )
}

/// The symmetries the fill supports.
pub open spec fn supported(s: RandSymmetry) -> bool {
    s == RandSymmetry::C1 || s == RandSymmetry::C2_1 || s == RandSymmetry::C4_1 || s == RandSymmetry::D2_1 || s
        == RandSymmetry::D2_2
}

/// The part of the area that gets a random number of its own under each symmetry.
pub open spec fn sym_area(s: RandSymmetry, area: Pos) -> Pos {
    match s {
        RandSymmetry::C2_1 => Pos { x: (area.x / 2) as i16, y: (area.y / 2) as i16 },
        RandSymmetry::C4_1 => Pos { x: (area.x / 2 + 1) as i16, y: (area.y / 2 + 1) as i16 },
        RandSymmetry::D2_1 => Pos { x: area.x, y: (area.y / 2 + area.y % 2) as i16 },
        RandSymmetry::D2_2 => Pos { x: area.x, y: (area.y / 2) as i16 },
        _ => area,
    }
}

/// The centre the rotations turn about.
pub open spec fn pivot_of(pos: Pos, area: Pos) -> Pos {
    Pos { x: (pos.x + area.x / 2) as i16, y: (pos.y + area.y / 2) as i16 }
}

/// The positions that get the cell drawn for `p`: `p` and its images under the symmetry.
pub open spec fn images(s: RandSymmetry, p: Pos, pos: Pos, area: Pos) -> Seq<Pos> {
    let c = pivot_of(pos, area);
    match s {
        RandSymmetry::C2_1 => seq![p, Pos { x: (c.x + (c.x - p.x)) as i16, y: (c.y + (c.y - p.y)) as i16 }],
        RandSymmetry::C4_1 => seq![
            p,
            Pos { x: (c.x + (c.y - p.y)) as i16, y: p.x },
            Pos { x: (c.x + (c.x - p.x)) as i16, y: (c.y + (c.y - p.y)) as i16 },
            Pos { x: p.y, y: (c.y + (c.x - p.x)) as i16 },
        ],
        RandSymmetry::D2_1 => {
            let l = pos.y + area.y / 2;
            seq![p, Pos { x: p.x, y: (l + (l - p.y)) as i16 }]
        },
        RandSymmetry::D2_2 => {
            let l = pos.y + area.y / 2 - 1;
            seq![p, Pos { x: p.x, y: (l + (l - p.y) + 1) as i16 }]
        },
        _ => seq![p],
    }
}

/// Every image of `p` stays within `i16`.
pub open spec fn images_fit(s: RandSymmetry, p: Pos, pos: Pos, area: Pos) -> bool {
    let c = pivot_of(pos, area);
    match s {
        RandSymmetry::C2_1 => in_i16(c.x - p.x) && in_i16(c.x + (c.x - p.x)) && in_i16(c.y - p.y) && in_i16(
            c.y + (c.y - p.y),
        ),
        RandSymmetry::C4_1 => in_i16(c.x - p.x) && in_i16(c.x + (c.x - p.x)) && in_i16(c.y - p.y) && in_i16(
            c.y + (c.y - p.y),
        ) && in_i16(c.x + (c.y - p.y)) && in_i16(c.y + (c.x - p.x)),
        RandSymmetry::D2_1 => {
            let l = pos.y + area.y / 2;
            in_i16(l - p.y) && in_i16(l + (l - p.y))
        },
        RandSymmetry::D2_2 => {
            let l = pos.y + area.y / 2 - 1;
            in_i16(l) && in_i16(l - p.y) && in_i16(l + (l - p.y)) && in_i16(l + (l - p.y) + 1)
        },
        _ => true,
    }
}

/// The writes of the first `k` random numbers: each number's cell at every image of its
/// position.
pub open spec fn rand_writes(s: RandSymmetry, pos: Pos, area: Pos, vals: Seq<u32>, k: int) -> Seq<(Pos, Cell)>
    decreases k,
{
    if k <= 0 {
        Seq::empty()
    } else {
        let p = area_positions(pos, sym_area(s, area))[k - 1];
        let c = random_cell(vals[k - 1]);
        rand_writes(s, pos, area, vals, k - 1) + images(s, p, pos, area).map_values(|q: Pos| (q, c))
    }
}

/// How many random numbers the fill draws.
pub open spec fn draws(s: RandSymmetry, area: Pos) -> int {
    sym_area(s, area).x * sym_area(s, area).y
}

/// A fill of `life` the code can make: a supported symmetry, a non-negative area, no
/// position or image leaving `i16`, and no negative position on a basic grid.
pub open spec fn rand_ok(life: Life, s: RandSymmetry, pos: Pos, area: Pos) -> bool {
    let sa = sym_area(s, area);
    let ps = area_positions(pos, sa);
    &&& supported(s)
    &&& area.x >= 0
    &&& area.y >= 0
    &&& in_i16(pos.x + area.x / 2)
    &&& in_i16(pos.y + area.y / 2)
    &&& in_i16(pos.x + sa.x)
    &&& in_i16(pos.y + sa.y)
    &&& forall|k: int| 0 <= k < ps.len() ==> images_fit(s, #[trigger] ps[k], pos, area)
    &&& forall|k: int, j: int|
        0 <= k < ps.len() && 0 <= j < images(s, ps[k], pos, area).len() ==> life.pos_ok(
            #[trigger] images(s, ps[k], pos, area)[j],
        )
}


/// The writes of one drawn cell `c` at the images of `p`.
fn image_writes(s: RandSymmetry, p: Pos, pos: Pos, area: Pos, c: Cell) -> (v: Vec<(Pos, Cell)>)
    requires
        supported(s),
        area.x >= 0,
        area.y >= 0,
        in_i16(pos.x + area.x / 2),
        in_i16(pos.y + area.y / 2),
        images_fit(s, p, pos, area),
    ensures
        v@ == images(s, p, pos, area).map_values(|q: Pos| (q, c)),
{
    let mut v: Vec<(Pos, Cell)> = Vec::new();
    v.push((p, c));
    let pivot = Pos { x: pos.x + area.x / 2, y: pos.y + area.y / 2 };
    match s {
        RandSymmetry::C2_1 => {
            v.push((p.rotate_180(pivot), c));
        },
        RandSymmetry::C4_1 => {
            v.push((p.rotate_90_cw_odd(pivot), c));
            v.push((p.rotate_180(pivot), c));
            v.push((p.rotate_90_ccw(pivot), c));
        },
        RandSymmetry::D2_1 => {
            let y_line = pos.y + area.y / 2;
            v.push((p.reflect_y_odd(y_line), c));
        },
        RandSymmetry::D2_2 => {
            let y_line = pos.y + area.y / 2 - 1;
            v.push((p.reflect_y_even(y_line), c));
        },
        _ => {},
    }
    assert(v@ =~= images(s, p, pos, area).map_values(|q: Pos| (q, c)));
    v
}

/// The part of the area that gets a random number of its own.
fn sym_area_exec(s: RandSymmetry, area: Pos) -> (r: Pos)
    requires
        area.x >= 0,
        area.y >= 0,
    ensures
        r == sym_area(s, area),
{
    match s {
        RandSymmetry::C2_1 => Pos { x: area.x / 2, y: area.y / 2 },
        RandSymmetry::C4_1 => Pos { x: area.x / 2 + 1, y: area.y / 2 + 1 },
        RandSymmetry::D2_1 => Pos { x: area.x, y: area.y / 2 + area.y % 2 },
        RandSymmetry::D2_2 => Pos { x: area.x, y: area.y / 2 },
        _ => area,
    }
}

/// Fill the area from `pos` with the cells the numbers `values` give (see `random_cell`),
/// copied to the images of each position under `symmetry` (`C1`, no symmetry, when
/// `None`).
pub fn rand_life_with(life: &mut Life, pos: Pos, area: Pos, values: &Vec<u32>, symmetry: Option<RandSymmetry>)
    requires
        old(life).wf(),
        rand_ok(*old(life), sym_or_default(symmetry), pos, area),
        values@.len() == draws(sym_or_default(symmetry), area),
    ensures
        final(life).wf(),
        final(life).kind() == old(life).kind(),
        final(life).spec_size() == old(life).spec_size(),
        final(life).spec_rule() == old(life).spec_rule(),
        final(life).spec_generation() == old(life).spec_generation(),
        (final(life).rows(), final(life).pops_view()) == apply_writes(
            (old(life).rows(), old(life).pops_view()),
            rand_writes(sym_or_default(symmetry), pos, area, values@, draws(sym_or_default(symmetry), area)),
        ),
{
    let s = match symmetry {
        Some(v) => v,
        None => RandSymmetry::C1,
    };
    let sa = sym_area_exec(s, area);
    let ps = pos.iter(sa);
    let ghost init = (life.rows(), life.pops_view());
    proof {
        crate::life::pos::lemma_area_nonneg(pos, sa);
        assert(sa.x >= 0 && sa.y >= 0);
        assert(ps@.len() == draws(s, area));
        lemma_packed(1, 0);
        crate::life::lemma_dead_cell();
    }
    let mut k: usize = 0;
    while k < ps.len()
        invariant
            k <= ps.len(),
            ps@ == area_positions(pos, sa),
            sa == sym_area(s, area),
            s == sym_or_default(symmetry),
            ps@.len() == values@.len(),
            rand_ok(*old(life), s, pos, area),
            life.wf(),
            life.kind() == old(life).kind(),
            life.spec_size() == old(life).spec_size(),
            life.spec_rule() == old(life).spec_rule(),
            life.spec_generation() == old(life).spec_generation(),
            init == (old(life).rows(), old(life).pops_view()),
            (life.rows(), life.pops_view()) == apply_writes(init, rand_writes(s, pos, area, values@, k as int)),
            random_cell(0).spec_faction() == 0,
            cell_of(packed(1, 0)).spec_faction() == 0,
            dead_cell().spec_faction() == 0,
        decreases ps.len() - k,
    {
        let p = ps[k];
        let c = cell_from_random(values[k]);
        proof {
            assert(images_fit(s, ps@[k as int], pos, area));
        }
        let ws = image_writes(s, p, pos, area, c);
        proof {
            assert forall|j: int| 0 <= j < ws@.len() implies life.pos_ok((#[trigger] ws@[j]).0) by {
                assert(ws@[j].0 == images(s, ps@[k as int], pos, area)[j]);
            }
            lemma_apply_concat(init, rand_writes(s, pos, area, values@, k as int), ws@);
        }
        life.insert_all(&ws);
        k = k + 1;
    }
}

/// The symmetry of a fill (`C1` when `None`).
pub open spec fn sym_or_default(s: Option<RandSymmetry>) -> RandSymmetry {
    match s {
        Some(v) => v,
        None => RandSymmetry::C1,
    }
}

/// Fill the area from `pos` with random cells (one in three alive) from a generator seeded
/// with `seed`, copied to the images of each position under `symmetry`: the fill that
/// `rand_life_with` makes of the generator's first numbers.
pub fn rand_life(life: &mut Life, pos: Pos, area: Pos, seed: u64, symmetry: Option<RandSymmetry>)
    requires
        old(life).wf(),
        rand_ok(*old(life), sym_or_default(symmetry), pos, area),
    ensures
        final(life).wf(),
        final(life).kind() == old(life).kind(),
        final(life).spec_size() == old(life).spec_size(),
        final(life).spec_rule() == old(life).spec_rule(),
        final(life).spec_generation() == old(life).spec_generation(),
        (final(life).rows(), final(life).pops_view()) == apply_writes(
            (old(life).rows(), old(life).pops_view()),
            rand_writes(
                sym_or_default(symmetry),
                pos,
                area,
                seeded_draws(seed, draws(sym_or_default(symmetry), area) as nat),
                draws(sym_or_default(symmetry), area),
            ),
        ),
{
    let s = match symmetry {
        Some(v) => v,
        None => RandSymmetry::C1,
    };
    let sa = sym_area_exec(s, area);
    let ax: usize = sa.x as usize;
    let ay: usize = sa.y as usize;
    assert(ax * ay <= 32767 * 32767) by (nonlinear_arith)
        requires
            ax <= 32767,
            ay <= 32767,
    ;
    let n: usize = ax * ay;
    let values = draw_seeded(seed, n);
    rand_life_with(life, pos, area, &values, symmetry);
}


/// The cell `randomize` puts at row `y` of a grid `h` high for the number `v`: alive one
/// time in five (with factions, only in the top and bottom quarters), of faction 1 in the
/// top half when factions are used.
pub open spec fn randomize_cell(v: u32, y: int, h: int, use_factions: bool) -> Cell {
    let state: u8 = if v < u32::MAX / 5 {
        if !use_factions || (y < h / 4 || y > (h * 3) / 4) {
            1
        } else {
            0
        }
    } else {
        0
    };
    let faction: u8 = if use_factions && y < h / 2 {
        1
    } else {
        0
    };
    cell_of(packed(state, faction))
}

/// The writes of `randomize` for the first `n` columns, column by column, each top to
/// bottom; the number for `(x, y)` is `vals[x * h + y]`.
pub open spec fn randomize_writes(vals: Seq<u32>, h: int, use_factions: bool, n: int) -> Seq<(Pos, Cell)>
    decreases n,
{
    if n <= 0 {
        Seq::empty()
    } else {
        let x = n - 1;
        randomize_writes(vals, h, use_factions, n - 1) + Seq::new(
            h as nat,
            |y: int| (Pos { x: x as i16, y: y as i16 }, randomize_cell(vals[x * h + y], y, h, use_factions)),
        )
    }
}

impl Life {
    /// Fill the grid with the cells the numbers `values` give (see `randomize_cell`),
    /// column by column.
    pub fn randomize_with(&mut self, values: &Vec<u32>, use_factions: bool)
        requires
            old(self).wf(),
            values@.len() == old(self).width() * old(self).height(),
            use_factions ==> old(self).height() * 3 <= 32767 && old(self).kind() == LifeAlgoSelect::Basic,
        ensures
            final(self).wf(),
            final(self).kind() == old(self).kind(),
            final(self).spec_size() == old(self).spec_size(),
            final(self).spec_rule() == old(self).spec_rule(),
            final(self).spec_generation() == old(self).spec_generation(),
            (final(self).rows(), final(self).pops_view()) == apply_writes(
                (old(self).rows(), old(self).pops_view()),
                randomize_writes(values@, old(self).height(), use_factions, old(self).width()),
            ),
    {
        let size = self.size();
        proof {
            self.lemma_wf();
        }
        let ghost h = size.y as int;
        let ghost init = (self.rows(), self.pops_view());
        let mut k: usize = 0;
        let mut x: i16 = 0;
        while x < size.x
            invariant
                self.wf(),
                size == self.spec_size(),
                0 <= size.x <= 32765,
                0 <= size.y <= 32765,
                h == size.y,
                0 <= x <= size.x,
                k == x * h,
                values@.len() == size.x * h,
                use_factions ==> h * 3 <= 32767 && self.kind() == LifeAlgoSelect::Basic,
                self.kind() == old(self).kind(),
                self.spec_size() == old(self).spec_size(),
                self.spec_rule() == old(self).spec_rule(),
                self.spec_generation() == old(self).spec_generation(),
                init == (old(self).rows(), old(self).pops_view()),
                (self.rows(), self.pops_view()) == apply_writes(init, randomize_writes(values@, h, use_factions, x as int)),
            decreases size.x - x,
        {
            let ghost before = randomize_writes(values@, h, use_factions, x as int);
            let ghost col = Seq::new(
                h as nat,
                |y: int| (Pos { x: x as i16, y: y as i16 }, randomize_cell(values@[x * h + y], y, h, use_factions)),
            );
            proof {
                assert((x + 1) * h == x * h + h) by (nonlinear_arith);
                assert(x * h + h <= size.x * h) by (nonlinear_arith)
                    requires
                        x < size.x,
                        h >= 0,
                ;
            }
            let mut y: i16 = 0;
            while y < size.y
                invariant
                    self.wf(),
                    size == self.spec_size(),
                    0 <= size.x <= 32765,
                    0 <= size.y <= 32765,
                    h == size.y,
                    0 <= x < size.x,
                    0 <= y <= size.y,
                    k == x * h + y,
                    x * h + h <= values@.len(),
                    use_factions ==> h * 3 <= 32767 && self.kind() == LifeAlgoSelect::Basic,
                    self.kind() == old(self).kind(),
                    self.spec_size() == old(self).spec_size(),
                    self.spec_rule() == old(self).spec_rule(),
                    self.spec_generation() == old(self).spec_generation(),
                    col == Seq::new(
                        h as nat,
                        |yy: int| (Pos { x: x as i16, y: yy as i16 }, randomize_cell(values@[x * h + yy], yy, h, use_factions)),
                    ),
                    (self.rows(), self.pops_view()) == apply_writes(init, before + col.take(y as int)),
                decreases size.y - y,
            {
                assert(k < values.len());
                let v = values[k];
                let state: u8 = if v < u32::MAX / 5 {
                    if !use_factions || (y < size.y / 4 || y > (size.y * 3) / 4) {
                        1
                    } else {
                        0
                    }
                } else {
                    0
                };
                let faction: u8 = if use_factions && y < size.y / 2 {
                    1
                } else {
                    0
                };
                let c = Cell::new(state, faction);
                proof {
                    assert((before + col.take(y + 1)).drop_last() =~= before + col.take(y as int));
                    assert((before + col.take(y + 1)).last() == col[y as int]);
                    assert(col[y as int] == (Pos { x, y }, c));
                    if !use_factions {
                        lemma_packed(state, 0);
                    }
                }
                self.insert(Pos { x, y }, c);
                k = k + 1;
                y = y + 1;
            }
            proof {
                assert(col.take(h) =~= col);
                assert(randomize_writes(values@, h, use_factions, x + 1) =~= before + col);
            }
            x = x + 1;
        }
    }

    /// Fill the grid with random cells from the global generator seeded with `seed` (see
    /// `randomize_with`); some sequence of drawn numbers gives the result.
    pub fn randomize(&mut self, seed: u64, use_factions: bool)
        requires
            old(self).wf(),
            use_factions ==> old(self).height() * 3 <= 32767 && old(self).kind() == LifeAlgoSelect::Basic,
        ensures
            final(self).wf(),
            final(self).kind() == old(self).kind(),
            final(self).spec_size() == old(self).spec_size(),
            final(self).spec_rule() == old(self).spec_rule(),
            final(self).spec_generation() == old(self).spec_generation(),
            exists|vals: Seq<u32>|
                vals.len() == old(self).width() * old(self).height() && (final(self).rows(), final(self).pops_view())
                    == apply_writes(
                    (old(self).rows(), old(self).pops_view()),
                    randomize_writes(vals, old(self).height(), use_factions, old(self).width()),
                ),
    {
        quad_rand::srand(seed);
        let size = self.size();
        proof {
            self.lemma_wf();
        }
        let w: usize = size.x as usize;
        let h: usize = size.y as usize;
        assert(w * h <= 32767 * 32767) by (nonlinear_arith)
            requires
                w <= 32767,
                h <= 32767,
        ;
        let n: usize = w * h;
        let mut values: Vec<u32> = Vec::new();
        let mut i: usize = 0;
        while i < n
            invariant
                i <= n,
                values@.len() == i,
            decreases n - i,
        {
            values.push(quad_rand::rand());
            i = i + 1;
        }
        self.randomize_with(&values, use_factions);
    }
}

/// A live or dead cell of `faction`: alive one time in ten.
pub open spec fn edge_cell(v: u32, faction: u8) -> Cell {
    cell_of(packed(if v < u32::MAX / 10 { 1 } else { 0 }, faction))
}

/// The writes of `randomize_edges_with` for the first `n` columns: for each column, its
/// top cell (faction 1) from one number, then its bottom cell (faction 0) from the next.
pub open spec fn edge_writes(vals: Seq<u32>, h: int, n: int) -> Seq<(Pos, Cell)>
    decreases n,
{
    if n <= 0 {
        Seq::empty()
    } else {
        let x = n - 1;
        edge_writes(vals, h, n - 1).push((Pos { x: x as i16, y: 0 }, edge_cell(vals[2 * x], 1))).push(
            (Pos { x: x as i16, y: (h - 1) as i16 }, edge_cell(vals[2 * x + 1], 0)),
        )
    }
}

/// Give the top and bottom rows random cells from `values`, two numbers per column: the
/// top row's cells are of faction 1, the bottom row's of faction 0.
pub fn randomize_edges_with(life: &mut Life, values: &Vec<u32>)
    requires
        old(life).wf(),
        old(life).kind() == LifeAlgoSelect::Basic,
        old(life).height() > 0,
        values@.len() == 2 * old(life).width(),
    ensures
        final(life).wf(),
        final(life).kind() == old(life).kind(),
        final(life).spec_size() == old(life).spec_size(),
        final(life).spec_rule() == old(life).spec_rule(),
        final(life).spec_generation() == old(life).spec_generation(),
        (final(life).rows(), final(life).pops_view()) == apply_writes(
            (old(life).rows(), old(life).pops_view()),
            edge_writes(values@, old(life).height(), old(life).width()),
        ),
{
    let size = life.size();
    proof {
        life.lemma_wf();
    }
    let ghost st0 = (life.rows(), life.pops_view());
    let ghost h = size.y as int;
    let mut x: i16 = 0;
    while x < size.x
        invariant
            0 <= x <= size.x,
            size == life.spec_size(),
            size.y > 0,
            h == size.y,
            values@.len() == 2 * size.x,
            life.wf(),
            life.kind() == LifeAlgoSelect::Basic,
            life.spec_size() == old(life).spec_size(),
            life.spec_rule() == old(life).spec_rule(),
            life.spec_generation() == old(life).spec_generation(),
            (life.rows(), life.pops_view()) == apply_writes(st0, edge_writes(values@, h, x as int)),
        decreases size.x - x,
    {
        let xi: usize = x as usize;
        let top = values[2 * xi];
        let bottom = values[2 * xi + 1];
        let c1 = Cell::new(if top < u32::MAX / 10 { 1 } else { 0 }, 1);
        let c2 = Cell::new(if bottom < u32::MAX / 10 { 1 } else { 0 }, 0);
        let ghost ws = edge_writes(values@, h, x as int);
        let ghost w1 = (Pos { x, y: 0 }, edge_cell(values@[2 * x], 1));
        let ghost w2 = (Pos { x, y: (h - 1) as i16 }, edge_cell(values@[2 * x + 1], 0));
        assert(c1 == w1.1 && c2 == w2.1);
        life.insert(Pos { x, y: 0 }, c1);
        let ghost mid = (life.rows(), life.pops_view());
        assert(mid == write_step(apply_writes(st0, ws), w1));
        life.insert(Pos { x, y: size.y - 1 }, c2);
        proof {
            assert(edge_writes(values@, h, x + 1) == ws.push(w1).push(w2));
            assert(ws.push(w1).drop_last() =~= ws);
            assert(ws.push(w1).push(w2).drop_last() =~= ws.push(w1));
            assert(apply_writes(st0, ws.push(w1)) == write_step(apply_writes(st0, ws), w1));
            assert(apply_writes(st0, ws.push(w1).push(w2)) == write_step(apply_writes(st0, ws.push(w1)), w2));
        }
        x = x + 1;
    }
}

/// Give the top and bottom rows random cells (see `randomize_edges_with`), drawing two
/// numbers per column from the global generator.
pub fn randomize_edges(life: &mut Life)
    requires
        old(life).wf(),
        old(life).kind() == LifeAlgoSelect::Basic,
        old(life).height() > 0,
    ensures
        final(life).wf(),
        final(life).kind() == old(life).kind(),
        final(life).spec_size() == old(life).spec_size(),
        final(life).spec_rule() == old(life).spec_rule(),
        final(life).spec_generation() == old(life).spec_generation(),
        exists|vals: Seq<u32>|
            vals.len() == 2 * old(life).width() && (final(life).rows(), final(life).pops_view()) == apply_writes(
                (old(life).rows(), old(life).pops_view()),
                edge_writes(vals, old(life).height(), old(life).width()),
            ),
{
    let size = life.size();
    proof {
        life.lemma_wf();
    }
    let n: usize = 2 * (size.x as usize);
    let mut values: Vec<u32> = Vec::new();
    let mut i: usize = 0;
    while i < n
        invariant
            i <= n,
            values@.len() == i,
        decreases n - i,
    {
        values.push(quad_rand::rand());
        i = i + 1;
    }
    randomize_edges_with(life, &values);
}

} // verus!
