use vstd::prelude::*;

use crate::life::pos::{area_positions, clamp_i16, div_i16, div_toward_zero, in_i16, saturating_add_i16, Pos};
use crate::life::transform::{cells_at, faction_or_zero, paste_pairs, paste_rows, pops_fold};
use crate::life::algo::basic::max_dim;
use crate::life::algo::dead_rows;
use crate::life::rand::randomize_writes;
use crate::life::{apply_writes, zero_pops, Faction, Life, LifeAlgoSelect, LifeOptions, LifeRule};

verus! {

/// The number of built-in pattern kinds a player can place.
pub const PATTERN_MAX_COUNT: usize = 5;

/// The ticks it takes to earn one more pattern of kind `index`.
pub open spec fn pattern_time_spec(index: int) -> int {
    if index == 0 {
        10
    } else if index == 1 {
        15
    } else if index == 2 {
        50
    } else if index == 3 {
        150
    } else {
        250
    }
}

/// The ticks it takes to earn one more pattern of kind `index`.
pub fn pattern_time(index: usize) -> (t: usize)
    requires
        index < PATTERN_MAX_COUNT,
    ensures
        t == pattern_time_spec(index as int),
{
    if index == 0 {
        10
    } else if index == 1 {
        15
    } else if index == 2 {
        50
    } else if index == 3 {
        150
    } else {
        250
    }
}

/// How many patterns of one kind a faction may place, and the ticks to the next one.
#[derive(Default, Clone, Copy, Debug, PartialEq, Eq, Structural)]
pub struct PatternCount {
    pub timer: usize,
    pub count: usize,
}

/// A count after one tick for pattern kind `index` (see `PatternCount::update`).
pub open spec fn count_after(c: PatternCount, index: int) -> PatternCount {
    if c.timer == 0 {
        PatternCount { count: (c.count + 1) as usize, timer: (pattern_time_spec(index) - 1) as usize }
    } else {
        PatternCount { count: c.count, timer: (c.timer - 1) as usize }
    }
}

impl PatternCount {
    /// One tick for pattern kind `index`: when the timer has run out a pattern is earned
    /// and the timer restarts; the timer then counts down one.
    pub fn update(&mut self, index: usize)
        requires
            index < PATTERN_MAX_COUNT,
            old(self).timer == 0 ==> old(self).count < usize::MAX,
        ensures
            *final(self) == count_after(*old(self), index as int),
    {
        if self.timer == 0 {
            self.count = self.count + 1;
            self.timer = pattern_time(index);
        }
        self.timer = self.timer - 1;
    }
}

/// Why a pattern could not be placed.
#[derive(Debug, Clone, Copy, PartialEq, Eq, Structural)]
pub enum PlaceError {
    Occupied,
    NotEnoughResources,
}

/// Some cell of the rectangle from `start` spanning `area` is not dead and belongs to
/// another faction.
pub open spec fn occupied(rows: crate::life::grid::Rows, start: Pos, area: Pos, faction: Faction) -> bool {
    let cs = cells_at(rows, area_positions(start, area));
    exists|i: int| 0 <= i < cs.len() && (#[trigger] cs[i]).spec_state() > 0 && cs[i].spec_faction() != faction
}

/// Whether a cell of the rectangle from `start` spanning `area` is taken by another
/// faction.
pub fn is_occupied(dst: &mut Life, start: Pos, area: Pos, faction: Faction) -> (r: bool)
    requires
        old(dst).wf(),
        area.x >= 0,
        area.y >= 0,
        in_i16(start.x + area.x),
        in_i16(start.y + area.y),
        old(dst).kind() == LifeAlgoSelect::Basic && area.x > 0 && area.y > 0 ==> start.x >= 0 && start.y >= 0,
    ensures
        *final(dst) == *old(dst),
        r == occupied(old(dst).rows(), start, area, faction),
{
    let cells = dst.iter_area(&start, area);
    let mut i: usize = 0;
    while i < cells.len()
        invariant
            i <= cells.len(),
            cells@ == cells_at(dst.rows(), area_positions(start, area)),
            *dst == *old(dst),
            forall|k: int| 0 <= k < i ==> !((#[trigger] cells@[k]).spec_state() > 0 && cells@[k].spec_faction() != faction),
        decreases cells.len() - i,
    {
        let c = cells[i];
        if c.get_state() > 0 && c.get_faction() != faction {
            assert(cells@[i as int].spec_state() > 0);
            return true;
        }
        i = i + 1;
    }
    false
}

/// What placing a pattern costs: its population of faction 0.
pub fn cost(life: &Life) -> (c: i16)
    requires
        life.wf(),
    ensures
        c == life.pops_view()[0],
{
    life.get_pop(0)
}

/// Whether a pattern of this kind is left to place.
pub fn can_afford(cost: i16, resources: &mut PatternCount, faction: Faction) -> (r: bool)
    ensures
        *final(resources) == *old(resources),
        r == (old(resources).count > 0),
{
    resources.count > 0
}

/// What placing `src` at `pos` for `faction` gives (`r`, the grid `dst2` and the count
/// `res2`): refused, with nothing changed, when the area is taken by another faction or
/// no pattern of the kind is left; otherwise one is used up and the pattern is pasted
/// with the faction, at the cost of its population of faction 0.
pub open spec fn placed(
    dst: Life,
    src: Life,
    pos: Pos,
    res: PatternCount,
    faction: Faction,
    r: Result<i16, PlaceError>,
    dst2: Life,
    res2: PatternCount,
) -> bool {
    &&& occupied(dst.rows(), pos, src.spec_size(), faction) ==> r == Err::<i16, PlaceError>(PlaceError::Occupied)
        && dst2 == dst && res2 == res
    &&& !occupied(dst.rows(), pos, src.spec_size(), faction) && res.count == 0 ==> r == Err::<i16, PlaceError>(
        PlaceError::NotEnoughResources,
    ) && dst2 == dst && res2 == res
    &&& !occupied(dst.rows(), pos, src.spec_size(), faction) && res.count > 0 ==> ({
        &&& r == Ok::<i16, PlaceError>(src.pops_view()[0])
        &&& res2.count == res.count - 1
        &&& res2.timer == res.timer
        &&& dst2.wf()
        &&& dst2.kind() == dst.kind()
        &&& dst2.spec_size() == dst.spec_size()
        &&& dst2.spec_rule() == dst.spec_rule()
        &&& dst2.spec_generation() == dst.spec_generation()
        &&& dst2.rows() == paste_rows(dst.rows(), src.rows(), pos, faction)
        &&& dst2.pops_view() == pops_fold(dst.pops_view(), paste_pairs(dst.rows(), src.rows(), pos, faction, src.height()))
    })
}

/// Place `src` at `pos` for `faction`: refused when the area is taken by another faction,
/// or when no pattern of this kind is left; otherwise one is used up, the pattern is
/// pasted with the faction, and its cost is returned.
pub fn place_pattern(dst: &mut Life, src: &Life, pos: Pos, resources: &mut PatternCount, faction: Faction) -> (r: Result<
    i16,
    PlaceError,
>)
    requires
        old(dst).wf(),
        src.wf(),
        in_i16(pos.x + src.width()),
        in_i16(pos.y + src.height()),
        old(dst).kind() == LifeAlgoSelect::Basic && src.width() > 0 && src.height() > 0 ==> pos.x >= 0 && pos.y >= 0,
        old(dst).kind() == LifeAlgoSelect::Cached ==> faction % 16 == 0,
    ensures
        placed(*old(dst), *src, pos, *old(resources), faction, r, *final(dst), *final(resources)),
{
    proof {
        src.lemma_wf();
    }
    let size = src.size();
    if is_occupied(dst, pos, size, faction) {
        return Err(PlaceError::Occupied);
    }
    let cost = cost(src);
    if !can_afford(cost, resources, faction) {
        return Err(PlaceError::NotEnoughResources);
    }
    resources.count = resources.count - 1;
    dst.paste(src, pos, Some(faction));
    Ok(cost)
}

/// How a game is set up: the grid's size, rule and algorithm.
#[derive(Clone, Copy)]
pub struct GameOptions {
    pub size: Pos,
    pub rule: LifeRule,
    pub algo: LifeAlgoSelect,
}

impl Default for GameOptions {
    /// A 256 by 256 basic grid under Conway's rule.
    fn default() -> (o: Self)
        ensures
            o.size == (Pos { x: 256, y: 256 }),
            o.rule == LifeRule::gol_spec(),
            o.algo == LifeAlgoSelect::Basic,
    {
        Self { size: Pos { x: 256, y: 256 }, rule: LifeRule::gol(), algo: LifeAlgoSelect::Basic }
    }
}

impl GameOptions {
    /// A new grid of the chosen size, rule and algorithm, filled at random with two
    /// factions (see `Life::randomize`) from the game's fixed seed.
    pub fn create(&self) -> (life: Life)
        requires
            self.algo == LifeAlgoSelect::Basic,
            0 <= self.size.x <= max_dim(),
            0 <= self.size.y,
            self.size.y * 3 <= 32767,
        ensures
            life.wf(),
            life.kind() == self.algo,
            life.spec_size() == self.size,
            life.spec_rule() == self.rule,
            life.spec_generation() == 0,
            exists|vals: Seq<u32>|
                vals.len() == self.size.x * self.size.y && (life.rows(), life.pops_view()) == apply_writes(
                    (dead_rows(self.size.x as int, self.size.y as int), zero_pops()),
                    randomize_writes(vals, self.size.y as int, true, self.size.x as int),
                ),
    {
        let seed: u64 = 23317;
        let mut life = Life::new_ex(self.size, LifeOptions { rule: self.rule, algo: self.algo });
        life.randomize(seed, true);
        life
    }
}

/// The side of the square grid of game size `i`: small, medium, large, huge.
pub open spec fn game_side(i: int) -> int {
    if i == 0 {
        64
    } else if i == 1 {
        128
    } else if i == 2 {
        256
    } else {
        512
    }
}

/// A new basic grid for a game of size `selected_size` under rule `selected_rule`
/// (Conway's Life, then Star Wars), filled at random with two factions from the fixed seed
/// of the options screen.
pub fn create_life(selected_rule: usize, selected_size: usize) -> (life: Life)
    requires
        selected_rule < 2,
        selected_size < 4,
    ensures
        life.wf(),
        life.kind() == LifeAlgoSelect::Basic,
        life.spec_size() == (Pos { x: game_side(selected_size as int) as i16, y: game_side(selected_size as int) as i16 }),
        selected_rule == 0 ==> life.spec_rule() == LifeRule::gol_spec(),
        selected_rule == 1 ==> life.spec_rule().spec_lut() == seq![
            0b1_00_00u32,
            0b10_10_10_01_01_01_10_10_10u32,
            0b11_11_11_11_11_11_11_11_11u32,
            0u32,
        ],
        life.spec_generation() == 0,
        exists|vals: Seq<u32>|
            vals.len() == life.width() * life.height() && (life.rows(), life.pops_view()) == apply_writes(
                (dead_rows(life.width(), life.height()), zero_pops()),
                randomize_writes(vals, life.height(), true, life.width()),
            ),
{
    let side: i16 = if selected_size == 0 {
        64
    } else if selected_size == 1 {
        128
    } else if selected_size == 2 {
        256
    } else {
        512
    };
    let rule = if selected_rule == 0 {
        LifeRule::gol()
    } else {
        LifeRule::star_wars()
    };
    let mut life = Life::new_ex(Pos { x: side, y: side }, LifeOptions { algo: LifeAlgoSelect::Basic, rule });
    life.randomize(1234, true);
    life
}

/// Ticking a count `n` times for pattern kind `index`.
pub open spec fn counts_over(c: PatternCount, index: int, n: nat) -> PatternCount
    decreases n,
{
    if n == 0 {
        c
    } else {
        count_after(counts_over(c, index, (n - 1) as nat), index)
    }
}

/// A pattern of each kind is earned once every `pattern_time_spec(index)` ticks: from a
/// run-out timer, that many ticks earn exactly one pattern and run the timer out again.
pub proof fn law_pattern_earned_each_period(c: PatternCount, index: int)
    requires
        0 <= index < PATTERN_MAX_COUNT,
        c.timer == 0,
        c.count < usize::MAX,
    ensures
        counts_over(c, index, pattern_time_spec(index) as nat) == (PatternCount { timer: 0, count: (c.count + 1) as usize }),
        forall|n: nat| 0 < n < pattern_time_spec(index) ==> (#[trigger] counts_over(c, index, n)).count == c.count + 1,
{
    let t = pattern_time_spec(index);
    assert forall|n: nat| 1 <= n <= t implies #[trigger] counts_over(c, index, n) == (PatternCount {
        timer: (t - n) as usize,
        count: (c.count + 1) as usize,
    }) by {
        lemma_counts_over(c, index, n);
    }
    assert(counts_over(c, index, t as nat) == (PatternCount { timer: 0, count: (c.count + 1) as usize }));
}

/// One more tick after `m` ticks past the first earning: the quotient by the period goes up
/// by one exactly when the remainder wraps.
proof fn lemma_tick_div(m: int, t: int)
    requires
        m >= 0,
        t > 0,
    ensures
        (m + 1) / t == m / t + (if m % t == t - 1 {
            1int
        } else {
            0int
        }),
        (m + 1) % t == (if m % t == t - 1 {
            0int
        } else {
            m % t + 1
        }),
        0 <= m % t < t,
        m / t >= 0,
{
    vstd::arithmetic::div_mod::lemma_fundamental_div_mod(m, t);
    assert(0 <= m % t < t);
    assert(m / t >= 0) by (nonlinear_arith)
        requires
            m >= 0,
            t > 0,
            m == t * (m / t) + m % t,
            0 <= m % t < t,
    ;
    if m % t == t - 1 {
        assert(m + 1 == (m / t + 1) * t + 0) by (nonlinear_arith)
            requires
                m == t * (m / t) + m % t,
                m % t == t - 1,
        ;
        vstd::arithmetic::div_mod::lemma_fundamental_div_mod_converse(m + 1, t, m / t + 1, 0);
    } else {
        assert(m + 1 == (m / t) * t + (m % t + 1)) by (nonlinear_arith)
            requires
                m == t * (m / t) + m % t,
        ;
        vstd::arithmetic::div_mod::lemma_fundamental_div_mod_converse(m + 1, t, m / t, m % t + 1);
    }
}

/// The count of kind `index` over `n` ticks, in closed form: the timer runs down for its
/// first `timer` ticks; at the next tick one pattern is earned, and then one more every
/// `pattern_time_spec(index)` ticks.
pub open spec fn count_closed(c: PatternCount, index: int, n: nat) -> PatternCount {
    let t = pattern_time_spec(index);
    if n <= c.timer {
        PatternCount { timer: (c.timer - n) as usize, count: c.count }
    } else {
        let m = n - c.timer - 1;
        PatternCount { timer: (t - 1 - m % t) as usize, count: (c.count + 1 + m / t) as usize }
    }
}

/// Any number of ticks gives the count in closed form (while the count fits a `usize`).
pub proof fn law_pattern_count_closed_form(c: PatternCount, index: int, n: nat)
    requires
        0 <= index < PATTERN_MAX_COUNT,
        c.timer < pattern_time_spec(index),
        n > c.timer ==> c.count + 1 + (n - c.timer - 1) / pattern_time_spec(index) <= usize::MAX,
    ensures
        counts_over(c, index, n) == count_closed(c, index, n),
    decreases n,
{
    let t = pattern_time_spec(index);
    if n > 0 {
        let k = (n - 1) as nat;
        if k > c.timer {
            lemma_tick_div(k - c.timer - 1, t);
        }
        if n > c.timer {
            lemma_tick_div(n - c.timer - 1, t);
        }
        if k > c.timer {
            assert((k - c.timer - 1) / t <= (n - c.timer - 1) / t);
        }
        law_pattern_count_closed_form(c, index, k);
        if k == c.timer {
            assert(count_closed(c, index, k).timer == 0);
        }
    }
}

proof fn lemma_counts_over(c: PatternCount, index: int, n: nat)
    requires
        0 <= index < PATTERN_MAX_COUNT,
        c.timer == 0,
        c.count < usize::MAX,
        1 <= n <= pattern_time_spec(index),
    ensures
        counts_over(c, index, n) == (PatternCount {
            timer: (pattern_time_spec(index) - n) as usize,
            count: (c.count + 1) as usize,
        }),
    decreases n,
{
    if n > 1 {
        lemma_counts_over(c, index, (n - 1) as nat);
    } else {
        assert(counts_over(c, index, 0) == c);
    }
}

/// The sum of the first `n` populations.
pub open spec fn pop_sum(p: Seq<i16>, n: int) -> int
    decreases n,
{
    if n <= 0 {
        0
    } else {
        pop_sum(p, n - 1) + p[n - 1]
    }
}

/// The factions among the first `n` whose population is positive, as pairs of population
/// and faction, in faction order.
pub open spec fn live_factions(p: Seq<i16>, n: int) -> Seq<(i16, u8)>
    decreases n,
{
    if n <= 0 {
        Seq::empty()
    } else if p[n - 1] > 0 {
        live_factions(p, n - 1).push((p[n - 1], (n - 1) as u8))
    } else {
        live_factions(p, n - 1)
    }
}

/// Pairs ordered by population, then faction.
pub open spec fn pair_le(a: (i16, u8), b: (i16, u8)) -> bool {
    a.0 < b.0 || (a.0 == b.0 && a.1 <= b.1)
}

/// The pairs are in ascending order.
pub open spec fn pairs_sorted(s: Seq<(i16, u8)>) -> bool {
    forall|i: int, j: int| 0 <= i < j < s.len() ==> pair_le(#[trigger] s[i], #[trigger] s[j])
}

/// Every partial sum of the populations fits an `i16`.
pub open spec fn pop_sums_fit(p: Seq<i16>) -> bool {
    forall|n: int| 0 <= n <= 16 ==> i16::MIN <= #[trigger] pop_sum(p, n) <= i16::MAX
}

proof fn lemma_live_factions(p: Seq<i16>, n: int)
    requires
        0 <= n <= 16,
    ensures
        live_factions(p, n).no_duplicates(),
        forall|i: int| 0 <= i < live_factions(p, n).len() ==> (#[trigger] live_factions(p, n)[i]).1 < n
            && live_factions(p, n)[i].0 > 0 && p[live_factions(p, n)[i].1 as int] == live_factions(p, n)[i].0,
    decreases n,
{
    if n > 0 {
        lemma_live_factions(p, n - 1);
    }
}

/// The populations of a grid for the score: their sum, and the factions with a positive
/// population as (population, faction) pairs in ascending order.
pub fn score_pops(life: &Life) -> (r: (i16, Vec<(i16, u8)>))
    requires
        pop_sums_fit(life.pops_view()),
    ensures
        r.0 == pop_sum(life.pops_view(), 16),
        pairs_sorted(r.1@),
        r.1@.no_duplicates(),
        r.1@.len() == live_factions(life.pops_view(), 16).len(),
        forall|x: (i16, u8)| #[trigger] r.1@.contains(x) <==> live_factions(life.pops_view(), 16).contains(x),
{
    let ghost p = life.pops_view();
    let mut total_pop: i16 = 0;
    let mut pops: Vec<(i16, u8)> = Vec::new();
    let mut faction: u8 = 0;
    while faction < 16
        invariant
            0 <= faction <= 16,
            p == life.pops_view(),
            pop_sums_fit(p),
            total_pop == pop_sum(p, faction as int),
            pairs_sorted(pops@),
            pops@.no_duplicates(),
            pops@.len() == live_factions(p, faction as int).len(),
            forall|x: (i16, u8)| #[trigger] pops@.contains(x) <==> live_factions(p, faction as int).contains(x),
        decreases 16 - faction,
    {
        let pop = life.get_pop(faction);
        proof {
            assert(pop_sum(p, faction + 1) == pop_sum(p, faction as int) + pop);
        }
        total_pop = total_pop + pop;
        if pop > 0 {
            let x = (pop, faction);
            proof {
                lemma_live_factions(p, faction as int);
                assert forall|k: int| 0 <= k < pops@.len() implies (#[trigger] pops@[k]).1 < faction by {
                    assert(pops@.contains(pops@[k]));
                    let lf = live_factions(p, faction as int);
                    assert(lf.contains(pops@[k]));
                    let j = choose|j: int| 0 <= j < lf.len() && #[trigger] lf[j] == pops@[k];
                    assert(lf[j].1 < faction);
                }
            }
            let mut i: usize = 0;
            while i < pops.len() && pair_le_exec(pops[i], x)
                invariant
                    0 <= i <= pops@.len(),
                    forall|k: int| 0 <= k < i ==> pair_le(#[trigger] pops@[k], x),
                decreases pops@.len() - i,
            {
                i = i + 1;
            }
            let ghost old_pops = pops@;
            pops.insert(i, x);
            proof {
                assert(pops@ == old_pops.insert(i as int, x));
                assert(!old_pops.contains(x)) by {
                    if old_pops.contains(x) {
                        let k = choose|k: int| 0 <= k < old_pops.len() && old_pops[k] == x;
                        assert(old_pops[k].1 < faction);
                    }
                }
                assert(live_factions(p, faction + 1) == live_factions(p, faction as int).push(x));
                assert forall|a: int, b: int| 0 <= a < b < pops@.len() implies pair_le(#[trigger] pops@[a], #[trigger] pops@[b]) by {
                    if i < old_pops.len() {
                        assert(!pair_le(old_pops[i as int], x));
                    }
                    if a < i && b == i {
                    } else if a == i && b > i {
                        assert(pops@[b] == old_pops[b - 1]);
                        assert(pair_le(old_pops[i as int], old_pops[b - 1]) || b - 1 == i);
                    } else if a < i && b > i {
                        assert(pops@[a] == old_pops[a]);
                        assert(pops@[b] == old_pops[b - 1]);
                    } else if b < i {
                    } else {
                        assert(pops@[a] == old_pops[a - 1]);
                        assert(pops@[b] == old_pops[b - 1]);
                    }
                }
                assert forall|y: (i16, u8)| #[trigger] pops@.contains(y) <==> live_factions(p, faction + 1).contains(y) by {
                    if pops@.contains(y) {
                        let k = choose|k: int| 0 <= k < pops@.len() && pops@[k] == y;
                        let lf0 = live_factions(p, faction as int);
                        let lf1 = live_factions(p, faction + 1);
                        if k != i {
                            let kk = if k < i { k } else { k - 1 };
                            assert(old_pops[kk] == y);
                            assert(old_pops.contains(y));
                            assert(lf0.contains(y));
                            let j = choose|j: int| 0 <= j < lf0.len() && #[trigger] lf0[j] == y;
                            assert(lf1[j] == y);
                        } else {
                            assert(lf1[lf1.len() - 1] == x);
                        }
                    }
                    if live_factions(p, faction + 1).contains(y) {
                        let lf = live_factions(p, faction + 1);
                        let k = choose|k: int| 0 <= k < lf.len() && #[trigger] lf[k] == y;
                        if y == x {
                            assert(pops@[i as int] == x);
                        } else {
                            assert(live_factions(p, faction as int)[k] == y);
                            assert(live_factions(p, faction as int).contains(y));
                            assert(old_pops.contains(y));
                            let j = choose|j: int| 0 <= j < old_pops.len() && old_pops[j] == y;
                            if j < i {
                                assert(pops@[j] == y);
                            } else {
                                assert(pops@[j + 1] == y);
                            }
                        }
                    }
                }
                assert(pops@.no_duplicates()) by {
                    assert forall|a: int, b: int| 0 <= a < pops@.len() && 0 <= b < pops@.len() && a != b implies pops@[a] != pops@[b] by {
                        let ia = if a < i { a } else if a == i { -1 } else { a - 1 };
                        let ib = if b < i { b } else if b == i { -1 } else { b - 1 };
                        if a == i {
                            assert(old_pops.contains(pops@[b]) ==> pops@[b] != x);
                            assert(pops@[b] == old_pops[ib]);
                        } else if b == i {
                            assert(pops@[a] == old_pops[ia]);
                        } else {
                            assert(pops@[a] == old_pops[ia]);
                            assert(pops@[b] == old_pops[ib]);
                        }
                    }
                }
            }
        } else {
            proof {
                assert(live_factions(p, faction + 1) == live_factions(p, faction as int));
            }
        }
        faction = faction + 1;
    }
    (total_pop, pops)
}

/// Whether `a` comes no later than `b` (see `pair_le`).
fn pair_le_exec(a: (i16, u8), b: (i16, u8)) -> (r: bool)
    ensures
        r == pair_le(a, b),
{
    a.0 < b.0 || (a.0 == b.0 && a.1 <= b.1)
}

/// How many ticks the computer player waits between moves.
pub const AI_UPDATE_TICKS: u32 = 4;

/// Live cells per resource earned each move: the player's faction, the others.
pub const PLAYER_CELL_PER_RESOURCE: i16 = 64;

pub const AI_CELL_PER_RESOURCE: i16 = 12;

/// A faction wins when it has more than ten times the other's population.
pub const WIN_MULTIPLIER: i16 = 10;

pub const PLAYER_FACTION: Faction = 0;

pub const AI_FACTION: Faction = 1;

/// How a game ends.
#[derive(Debug, Clone, Copy, PartialEq, Eq, Structural)]
pub enum GameEnd {
    Lost,
    Won,
}

/// The state of a game besides its grid: each faction's resources and pattern counts,
/// and the ticks since the computer player last moved.
pub struct GameState {
    pub resources: Vec<i16>,
    pub pattern_times: Vec<Vec<PatternCount>>,
    pub ai_update_ticks: u32,
}

/// Sixteen factions, each with a count for every pattern kind.
pub open spec fn game_state_ok(s: GameState) -> bool {
    &&& s.resources@.len() == 16
    &&& s.pattern_times@.len() == 16
    &&& forall|i: int| 0 <= i < 16 ==> (#[trigger] s.pattern_times@[i])@.len() == PATTERN_MAX_COUNT
}

/// The resources after a move: each faction earns its population divided by its cells
/// per resource (rounded toward zero), saturating.
pub open spec fn earned(res: Seq<i16>, pops: Seq<i16>) -> Seq<i16> {
    Seq::new(
        16,
        |i: int|
            clamp_i16(
                res[i] + div_toward_zero(
                    pops[i] as int,
                    if i == 0 {
                        PLAYER_CELL_PER_RESOURCE as int
                    } else {
                        AI_CELL_PER_RESOURCE as int
                    },
                ),
            ),
    )
}

/// Every count after a tick.
pub open spec fn counts_after(t: Seq<Seq<PatternCount>>) -> Seq<Seq<PatternCount>> {
    Seq::new(16, |i: int| Seq::new(PATTERN_MAX_COUNT as nat, |j: int| count_after(t[i][j], j)))
}

/// The end a move finds from the populations of the player and the computer: won when the
/// player has more than ten times the computer's population, lost in the opposite case.
pub open spec fn game_end(player: i16, ai: i16) -> Option<GameEnd> {
    if div_toward_zero(player as int, WIN_MULTIPLIER as int) > ai {
        Some(GameEnd::Won)
    } else if div_toward_zero(ai as int, WIN_MULTIPLIER as int) > player {
        Some(GameEnd::Lost)
    } else {
        None
    }
}

/// `x` leads `y` tenfold as Rust's integer division counts it (`x / 10 > y`), written
/// without division: for a non-negative `x`, at least `10 * y + 10`.
pub open spec fn tenfold_lead(x: int, y: int) -> bool {
    if x >= 0 {
        x >= 10 * y + 10
    } else {
        x >= 10 * y + 1
    }
}

/// The game is decided by a tenfold lead in population: the player wins when their
/// population is at least ten times the computer's plus ten (so that it divided by ten still
/// exceeds the computer's), loses when the computer leads in the same way, and otherwise
/// the game goes on. A mere lead decides nothing: at 50 against 100 the game goes on, at 5
/// against 60 it is lost.
pub proof fn law_game_end_tenfold(player: i16, ai: i16)
    ensures
        game_end(player, ai) == Some(GameEnd::Won) <==> tenfold_lead(player as int, ai as int),
        game_end(player, ai) == Some(GameEnd::Lost) <==> !tenfold_lead(player as int, ai as int)
            && tenfold_lead(ai as int, player as int),
        game_end(player, ai) is None <==> !tenfold_lead(player as int, ai as int)
            && !tenfold_lead(ai as int, player as int),
        0 <= player && 0 <= ai ==> (game_end(player, ai) == Some(GameEnd::Lost) <==> ai >= 10 * player + 10),
        0 <= player && 0 <= ai ==> (game_end(player, ai) == Some(GameEnd::Won) <==> player >= 10 * ai + 10),
{
    lemma_tenfold(player as int, ai as int);
    lemma_tenfold(ai as int, player as int);
}

proof fn lemma_tenfold(x: int, y: int)
    ensures
        div_toward_zero(x, 10) > y <==> tenfold_lead(x, y),
{
    let a = if x < 0 {
        -x
    } else {
        x
    };
    assert(a == crate::life::pos::abs(x));
    assert(crate::life::pos::abs(10) == 10);
    let q = a / 10;
    let r = a % 10;
    assert(a == 10 * q + r && 0 <= r < 10) by (nonlinear_arith)
        requires
            a >= 0,
            q == a / 10,
            r == a % 10,
    ;
}

/// Where the computer places pattern `pick % 5` on a `w` by `h` grid from three numbers:
/// anywhere across, in the top quarter.
pub open spec fn ai_spot(rand_x: u32, rand_y: u32, w: int, h: int) -> Pos {
    Pos { x: (rand_x % (w as u32)) as i16, y: ((rand_y % (h as u32)) / 4) as i16 }
}

/// What the computer's move needs: a basic grid with cells, and patterns that fit beside
/// it within the coordinate range.
pub open spec fn ai_ok(life: Life, patterns: Seq<Life>) -> bool {
    &&& life.wf()
    &&& life.kind() == LifeAlgoSelect::Basic
    &&& life.width() > 0
    &&& life.height() > 0
    &&& patterns.len() == PATTERN_MAX_COUNT
    &&& forall|k: int|
        0 <= k < patterns.len() ==> (#[trigger] patterns[k]).wf() && life.width() + patterns[k].width() <= 32767
            && life.height() + patterns[k].height() <= 32767
}

/// No count is at its limit.
pub open spec fn counts_ok(t: Seq<Seq<PatternCount>>) -> bool {
    forall|i: int, j: int| 0 <= i < 16 && 0 <= j < PATTERN_MAX_COUNT ==> (#[trigger] t[i][j]).count < usize::MAX
}

/// What one tick makes of a game (`s`, `life`) with the numbers `pick`, `rand_x` and
/// `rand_y`: the end found, the new state `s2` and grid `life2` (see `GameState::tick_with`).
pub open spec fn ticked(
    s: GameState,
    life: Life,
    patterns: Seq<Life>,
    pick: u32,
    rand_x: u32,
    rand_y: u32,
    end: Option<GameEnd>,
    s2: GameState,
    life2: Life,
) -> bool {
    &&& s.ai_update_ticks < AI_UPDATE_TICKS ==> end is None && life2 == life && s2.ai_update_ticks
        == s.ai_update_ticks + 1 && s2.resources@ == s.resources@ && s2.times() == s.times()
    &&& s.ai_update_ticks == AI_UPDATE_TICKS ==> ({
        let pi = (pick % 5) as int;
        let mid = counts_after(s.times());
        &&& end == game_end(life.pops_view()[0], life.pops_view()[1])
        &&& s2.ai_update_ticks == 0
        &&& s2.resources@ == earned(s.resources@, life.pops_view())
        &&& s2.times() == mid.update(1, mid[1].update(pi, s2.times()[1][pi]))
        &&& exists|r: Result<i16, PlaceError>|
            placed(
                life,
                patterns[pi],
                ai_spot(rand_x, rand_y, life.width(), life.height()),
                mid[1][pi],
                AI_FACTION,
                r,
                life2,
                s2.times()[1][pi],
            )
    })
}

impl GameState {
    /// A game's start: no resources, no patterns, no ticks.
    pub fn new() -> (s: Self)
        ensures
            game_state_ok(s),
            s.resources@ == Seq::new(16, |i: int| 0i16),
            forall|i: int, j: int|
                0 <= i < 16 && 0 <= j < PATTERN_MAX_COUNT ==> #[trigger] s.pattern_times@[i]@[j] == (PatternCount {
                    timer: 0,
                    count: 0,
                }),
            s.ai_update_ticks == 0,
    {
        let mut resources: Vec<i16> = Vec::new();
        let mut pattern_times: Vec<Vec<PatternCount>> = Vec::new();
        let mut i: usize = 0;
        while i < 16
            invariant
                i <= 16,
                resources@ == Seq::new(i as nat, |k: int| 0i16),
                pattern_times@.len() == i,
                forall|k: int| 0 <= k < i ==> (#[trigger] pattern_times@[k])@ == Seq::new(
                    PATTERN_MAX_COUNT as nat,
                    |j: int| PatternCount { timer: 0, count: 0 },
                ),
            decreases 16 - i,
        {
            resources.push(0);
            let mut row: Vec<PatternCount> = Vec::new();
            let mut j: usize = 0;
            while j < PATTERN_MAX_COUNT
                invariant
                    j <= PATTERN_MAX_COUNT,
                    row@ == Seq::new(j as nat, |k: int| PatternCount { timer: 0, count: 0 }),
                decreases PATTERN_MAX_COUNT - j,
            {
                row.push(PatternCount { timer: 0, count: 0 });
                j = j + 1;
                proof {
                    assert(row@ =~= Seq::new(j as nat, |k: int| PatternCount { timer: 0, count: 0 }));
                }
            }
            pattern_times.push(row);
            i = i + 1;
            proof {
                assert(resources@ =~= Seq::new(i as nat, |k: int| 0i16));
            }
        }
        Self { resources, pattern_times, ai_update_ticks: 0 }
    }

    /// The counts as values.
    pub open spec fn times(self) -> Seq<Seq<PatternCount>> {
        self.pattern_times@.map_values(|r: Vec<PatternCount>| r@)
    }

    /// One tick of the game. Every fifth tick the computer moves: each faction earns
    /// resources (see `earned`) and every count ticks (see `counts_after`); the end is
    /// checked from the populations of the player and the computer; then the computer
    /// places pattern `pick % 5` at `ai_spot` for its faction (see `placed`).
    pub fn tick_with(&mut self, life: &mut Life, patterns: &Vec<Life>, pick: u32, rand_x: u32, rand_y: u32) -> (end:
        Option<GameEnd>)
        requires
            game_state_ok(*old(self)),
            counts_ok(old(self).times()),
            old(self).ai_update_ticks <= AI_UPDATE_TICKS,
            ai_ok(*old(life), patterns@),
        ensures
            game_state_ok(*final(self)),
            final(self).ai_update_ticks <= AI_UPDATE_TICKS,
            ticked(*old(self), *old(life), patterns@, pick, rand_x, rand_y, end, *final(self), *final(life)),
    {
        self.ai_update_ticks = self.ai_update_ticks + 1;
        if self.ai_update_ticks <= AI_UPDATE_TICKS {
            return None;
        }
        let ghost t0 = self.times();
        let ghost r0 = self.resources@;
        assert(t0 == old(self).times());
        let mut i: usize = 0;
        while i < 16
            invariant
                i <= 16,
                life.wf(),
                life == old(life),
                game_state_ok(*self),
                counts_ok(t0),
                t0 == old(self).times(),
                r0 == old(self).resources@,
                game_state_ok(*old(self)),
                forall|k: int| i <= k < 16 ==> #[trigger] self.times()[k] == t0[k],
                forall|k: int| 0 <= k < i ==> #[trigger] self.times()[k] == counts_after(t0)[k],
                forall|k: int| i <= k < 16 ==> #[trigger] self.resources@[k] == r0[k],
                forall|k: int| 0 <= k < i ==> #[trigger] self.resources@[k] == earned(r0, life.pops_view())[k],
                self.ai_update_ticks == AI_UPDATE_TICKS + 1,
            decreases 16 - i,
        {
            let ghost tb = self.times();
            assert(tb[i as int] == t0[i as int]);
            let ghost rb = self.resources@;
            let cell_per_resource: i16 = if i == 0 {
                PLAYER_CELL_PER_RESOURCE
            } else {
                AI_CELL_PER_RESOURCE
            };
            let pop = life.get_pop(i as u8);
            let gain = div_i16(pop, cell_per_resource);
            let r = saturating_add_i16(self.resources[i], gain);
            self.resources.set(i, r);
            let mut row: Vec<PatternCount> = Vec::new();
            let mut j: usize = 0;
            proof {
                assert(self.times() == tb);
                assert(self.resources@ == rb.update(i as int, r));
            }
            while j < PATTERN_MAX_COUNT
                invariant
                    j <= PATTERN_MAX_COUNT,
                    i < 16,
                    game_state_ok(*self),
                    counts_ok(t0),
                    self.times()[i as int] == t0[i as int],
                    row@ == counts_after(t0)[i as int].take(j as int),
                decreases PATTERN_MAX_COUNT - j,
            {
                let mut c = self.pattern_times[i][j];
                proof {
                    assert(c == t0[i as int][j as int]);
                }
                c.update(j);
                row.push(c);
                j = j + 1;
                proof {
                    assert(row@ =~= counts_after(t0)[i as int].take(j as int));
                }
            }
            proof {
                assert(row@ =~= counts_after(t0)[i as int]);
            }
            let ghost before = self.times();
            self.pattern_times.set(i, row);
            proof {
                assert(self.times() =~= before.update(i as int, row@));
            }
            i = i + 1;
        }
        proof {
            assert(self.resources@ =~= earned(r0, life.pops_view()));
            assert(self.times() =~= counts_after(t0));
        }
        let player_pop = life.get_pop(PLAYER_FACTION);
        let ai_pop = life.get_pop(AI_FACTION);
        let mut end: Option<GameEnd> = None;
        if div_i16(ai_pop, WIN_MULTIPLIER) > player_pop {
            end = Some(GameEnd::Lost);
        }
        if div_i16(player_pop, WIN_MULTIPLIER) > ai_pop {
            end = Some(GameEnd::Won);
        }
        self.ai_update_ticks = 0;
        let pi: usize = (pick % 5) as usize;
        let size = life.size();
        let x = rand_x % (size.x as u32);
        let y = rand_y % (size.y as u32) / 4;
        let spot = Pos { x: x as i16, y: y as i16 };
        let ghost mid = self.times();
        let mut count = self.pattern_times[1][pi];
        proof {
            assert(count == mid[1][pi as int]);
            patterns@[pi as int].lemma_wf();
        }
        let ghost life0 = *life;
        let placed_r = place_pattern(life, &patterns[pi], spot, &mut count, AI_FACTION);
        proof {
            assert(spot == ai_spot(rand_x, rand_y, life0.width(), life0.height()));
            assert(placed(life0, patterns@[pi as int], spot, mid[1][pi as int], AI_FACTION, placed_r, *life, count));
        }
        let mut row: Vec<PatternCount> = Vec::new();
        let mut j: usize = 0;
        while j < PATTERN_MAX_COUNT
            invariant
                j <= PATTERN_MAX_COUNT,
                pi < PATTERN_MAX_COUNT,
                game_state_ok(*self),
                self.times() == mid,
                row@ == mid[1].update(pi as int, count).take(j as int),
            decreases PATTERN_MAX_COUNT - j,
        {
            let c = if j == pi {
                count
            } else {
                self.pattern_times[1][j]
            };
            row.push(c);
            j = j + 1;
            proof {
                assert(row@ =~= mid[1].update(pi as int, count).take(j as int));
            }
        }
        proof {
            assert(row@ =~= mid[1].update(pi as int, count));
        }
        self.pattern_times.set(1, row);
        proof {
            assert(self.times() =~= mid.update(1, mid[1].update(pi as int, count)));
            assert(self.times()[1][pi as int] == count);
            assert(mid == counts_after(old(self).times()));
            assert(end == game_end(life0.pops_view()[0], life0.pops_view()[1]));
            assert(life0 == *old(life));
            assert(self.resources@ == earned(old(self).resources@, old(life).pops_view()));
        }
        end
    }

    /// One tick of the game (see `tick_with`); when the computer moves it draws its three
    /// numbers from the global generator.
    pub fn tick(&mut self, life: &mut Life, patterns: &Vec<Life>) -> (end: Option<GameEnd>)
        requires
            game_state_ok(*old(self)),
            counts_ok(old(self).times()),
            old(self).ai_update_ticks <= AI_UPDATE_TICKS,
            ai_ok(*old(life), patterns@),
        ensures
            game_state_ok(*final(self)),
            final(self).ai_update_ticks <= AI_UPDATE_TICKS,
            exists|pick: u32, rand_x: u32, rand_y: u32|
                ticked(*old(self), *old(life), patterns@, pick, rand_x, rand_y, end, *final(self), *final(life)),
    {
        if self.ai_update_ticks < AI_UPDATE_TICKS {
            self.tick_with(life, patterns, 0, 0, 0)
        } else {
            let pick = quad_rand::rand();
            let rand_x = quad_rand::rand();
            let rand_y = quad_rand::rand();
            self.tick_with(life, patterns, pick, rand_x, rand_y)
        }
    }
}

} // verus!
