use vstd::prelude::*;

use std::collections::HashMap;
use vstd::std_specs::iter::IteratorSpec;

use crate::life::grid::{rows_wf, Rows};
use crate::life::pos::Pos;
use crate::life::transform::{grid_items, row_items};
use crate::life::algo::basic::max_dim;
use crate::life::algo::{dead_rows, quiet};
use crate::life::grid::states_valid;
use crate::life::transform::{copy_rows, grid_bytes, paste_rows};
use crate::life::LifeOptions;
use crate::pattern::classify::{evolve, lemma_evolve_states};
use std::hash::DefaultHasher;
use vstd::std_specs::hash::DefaultHasherAdditionalSpecFns;
use crate::life::{Life, LifeAlgoSelect, LifeRule};
use crate::pattern::classify::{classify_post, classify_pre};
use crate::pattern::Pattern;
use crate::life::Cell;

verus! {

broadcast use vstd::std_specs::hash::group_hash_axioms;

/// The bounding box of a group of cells.
#[derive(Clone, Copy, Debug, PartialEq, Eq, Structural)]
pub struct CellGroup {
    pub top_left_pos: Pos,
    pub bot_right_pos: Pos,
}

/// The box `g` grown to take in `p`.
pub open spec fn box_add(g: CellGroup, p: Pos) -> CellGroup {
    CellGroup {
        top_left_pos: Pos {
            x: if p.x < g.top_left_pos.x { p.x } else { g.top_left_pos.x },
            y: if p.y < g.top_left_pos.y { p.y } else { g.top_left_pos.y },
        },
        bot_right_pos: Pos {
            x: if p.x > g.bot_right_pos.x { p.x } else { g.bot_right_pos.x },
            y: if p.y > g.bot_right_pos.y { p.y } else { g.bot_right_pos.y },
        },
    }
}

impl CellGroup {
    /// The box of the one cell `pos`.
    pub fn new(pos: Pos) -> (g: Self)
        ensures
            g == (CellGroup { top_left_pos: pos, bot_right_pos: pos }),
    {
        Self { top_left_pos: pos, bot_right_pos: pos }
    }

    /// Whether `pos` lies in the box (its edges included).
    pub fn within(&self, pos: Pos) -> (r: bool)
        ensures
            r == (self.top_left_pos.x <= pos.x <= self.bot_right_pos.x && self.top_left_pos.y <= pos.y
                <= self.bot_right_pos.y),
    {
        pos.x >= self.top_left_pos.x && pos.x <= self.bot_right_pos.x && pos.y >= self.top_left_pos.y && pos.y
            <= self.bot_right_pos.y
    }

    /// Grow the box to take in `pos`.
    pub fn add(&mut self, pos: Pos)
        ensures
            *final(self) == box_add(*old(self), pos),
    {
        if pos.x < self.top_left_pos.x {
            self.top_left_pos.x = pos.x;
        }
        if pos.y < self.top_left_pos.y {
            self.top_left_pos.y = pos.y;
        }
        if pos.x > self.bot_right_pos.x {
            self.bot_right_pos.x = pos.x;
        }
        if pos.y > self.bot_right_pos.y {
            self.bot_right_pos.y = pos.y;
        }
    }
}

/// What a tracker holds, as values: the group number of each cell (0 for none), the next
/// number to hand out, and the box of each group.
pub type TrackState = (Seq<Seq<u8>>, u8, Map<u8, CellGroup>);

/// The offsets of the cells a cell looks at for a group: its eight neighbours, then the
/// ring of sixteen cells two steps away.
pub open spec fn neighbor_offset(i: int) -> (int, int) {
    if i == 0 { (-1, -1) }
    else if i == 1 { (0, -1) }
    else if i == 2 { (1, -1) }
    else if i == 3 { (1, 0) }
    else if i == 4 { (1, 1) }
    else if i == 5 { (0, 1) }
    else if i == 6 { (-1, 1) }
    else if i == 7 { (-1, 0) }
    else if i == 8 { (-2, -2) }
    else if i == 9 { (-1, -2) }
    else if i == 10 { (0, -2) }
    else if i == 11 { (1, -2) }
    else if i == 12 { (2, -2) }
    else if i == 13 { (2, -1) }
    else if i == 14 { (2, 0) }
    else if i == 15 { (2, 1) }
    else if i == 16 { (2, 2) }
    else if i == 17 { (1, 2) }
    else if i == 18 { (0, 2) }
    else if i == 19 { (-1, 2) }
    else if i == 20 { (-2, 2) }
    else if i == 21 { (-2, 1) }
    else if i == 22 { (-2, 0) }
    else { (-2, -1) }
}

/// The group number at `p` moved by `off`, or 0 off the map (whose width is that of its
/// first row).
pub open spec fn group_at(g: Seq<Seq<u8>>, p: Pos, off: (int, int)) -> u8 {
    let fx = p.x + off.0;
    let fy = p.y + off.1;
    if 0 <= fx < g[0].len() && 0 <= fy < g.len() {
        g[fy][fx]
    } else {
        0
    }
}

/// The map with every `from` changed to `to`.
pub open spec fn relabel(g: Seq<Seq<u8>>, from: u8, to: u8) -> Seq<Seq<u8>> {
    g.map_values(|row: Seq<u8>| row.map_values(|v: u8| if v == from { to } else { v }))
}

/// `b` grown, left to right, by the first `n` cells of row `y` numbered `slave`.
pub open spec fn merge_row_box(row: Seq<u8>, y: int, slave: u8, b: CellGroup, n: int) -> CellGroup
    decreases n,
{
    if n <= 0 {
        b
    } else {
        let b1 = merge_row_box(row, y, slave, b, n - 1);
        if row[n - 1] == slave {
            box_add(b1, Pos { x: (n - 1) as i16, y: y as i16 })
        } else {
            b1
        }
    }
}

/// `b` grown, row by row, by the cells of the first `n` rows numbered `slave` (every row
/// read as wide as the first).
pub open spec fn merge_box(g: Seq<Seq<u8>>, slave: u8, b: CellGroup, n: int) -> CellGroup
    decreases n,
{
    if n <= 0 {
        b
    } else {
        merge_row_box(g[n - 1], n - 1, slave, merge_box(g, slave, b, n - 1), g[0].len() as int)
    }
}

/// Group `slave` joined into group `master`: its cells renumbered, the master box grown
/// by them, and the slave group dropped.
pub open spec fn merged(st: TrackState, master: u8, slave: u8) -> TrackState {
    (
        relabel(st.0, slave, master),
        st.1,
        st.2.insert(master, merge_box(st.0, slave, st.2[master], st.0.len() as int)).remove(slave),
    )
}

/// The search of the offsets from `i` on for the group of `p`: the first group found
/// takes `p` into its box, and every other group found is merged into it.
pub open spec fn calc_from(st: TrackState, p: Pos, found: Option<u8>, i: nat) -> (TrackState, Option<u8>)
    decreases 24 - i,
{
    if i >= 24 {
        (st, found)
    } else {
        let ng = group_at(st.0, p, neighbor_offset(i as int));
        if ng > 0 {
            match found {
                Some(f) => if ng != f {
                    calc_from(merged(st, f, ng), p, found, i + 1)
                } else {
                    calc_from(st, p, found, i + 1)
                },
                None => calc_from((st.0, st.1, st.2.insert(ng, box_add(st.2[ng], p))), p, Some(ng), i + 1),
            }
        } else {
            calc_from(st, p, found, i + 1)
        }
    }
}

/// The group of `p` and the state after finding it: the group found near `p`, or a new
/// group of `p` alone under the next number.
pub open spec fn calc_group(st: TrackState, p: Pos) -> (TrackState, u8) {
    let r = calc_from(st, p, None, 0);
    match r.1 {
        Some(g) => (r.0, g),
        None => (
            (r.0.0, (r.0.1 + 1) as u8, r.0.2.insert(r.0.1, CellGroup { top_left_pos: p, bot_right_pos: p })),
            r.0.1,
        ),
    }
}

/// The state after each of the first `n` entries `(x, y, cell)` whose cell is alive has
/// been given its group, in order.
pub open spec fn track_items(st: TrackState, items: Seq<(i16, i16, Cell)>, n: int) -> TrackState
    decreases n,
{
    if n <= 0 {
        st
    } else {
        let s = track_items(st, items, n - 1);
        let it = items[n - 1];
        if it.2.spec_is_alive() {
            let r = calc_group(s, Pos { x: it.0, y: it.1 });
            (r.0.0.update(it.1 as int, r.0.0[it.1 as int].update(it.0 as int, r.1)), r.0.1, r.0.2)
        } else {
            s
        }
    }
}

/// The number of live cells among the first `n` entries.
pub open spec fn alive_count(items: Seq<(i16, i16, Cell)>, n: int) -> int
    decreases n,
{
    if n <= 0 {
        0
    } else {
        alive_count(items, n - 1) + if items[n - 1].2.spec_is_alive() {
            1int
        } else {
            0int
        }
    }
}

/// The state a tracker starts from on a `w` by `h` grid: no groups, numbers from 1.
pub open spec fn empty_track(w: int, h: int) -> TrackState {
    (Seq::new(h as nat, |y: int| Seq::new(w as nat, |x: int| 0u8)), 1u8, Map::empty())
}

/// The map is `w` by `h`, and every number on it names a group.
pub open spec fn track_wf(st: TrackState, w: int, h: int) -> bool {
    &&& st.0.len() == h
    &&& forall|y: int| 0 <= y < h ==> (#[trigger] st.0[y]).len() == w
    &&& forall|y: int, x: int| 0 <= y < h && 0 <= x < w && #[trigger] st.0[y][x] != 0 ==> st.2.contains_key(st.0[y][x])
}

proof fn lemma_relabel_shape(g: Seq<Seq<u8>>, from: u8, to: u8, w: int, h: int)
    requires
        g.len() == h,
        forall|y: int| 0 <= y < h ==> (#[trigger] g[y]).len() == w,
    ensures
        relabel(g, from, to).len() == h,
        forall|y: int| 0 <= y < h ==> (#[trigger] relabel(g, from, to)[y]).len() == w,
        forall|y: int, x: int|
            0 <= y < h && 0 <= x < w ==> #[trigger] relabel(g, from, to)[y][x] == (if g[y][x] == from {
                to
            } else {
                g[y][x]
            }),
{
}

/// Merging keeps every number on the map naming a group.
proof fn lemma_merged_wf(st: TrackState, master: u8, slave: u8, w: int, h: int)
    requires
        track_wf(st, w, h),
        st.2.contains_key(master),
        master != slave,
    ensures
        track_wf(merged(st, master, slave), w, h),
        merged(st, master, slave).2.contains_key(master),
        merged(st, master, slave).1 == st.1,
{
    lemma_relabel_shape(st.0, slave, master, w, h);
}

/// The search keeps the map well formed, and the group it finds names a group.
proof fn lemma_calc_from_wf(st: TrackState, p: Pos, found: Option<u8>, i: nat, w: int, h: int)
    requires
        track_wf(st, w, h),
        h > 0,
        found matches Some(f) ==> st.2.contains_key(f),
    ensures
        track_wf(calc_from(st, p, found, i).0, w, h),
        calc_from(st, p, found, i).0.1 == st.1,
        calc_from(st, p, found, i).1 matches Some(f) ==> calc_from(st, p, found, i).0.2.contains_key(f),
        found is Some ==> calc_from(st, p, found, i).1 is Some,
    decreases 24 - i,
{
    if i < 24 {
        let ng = group_at(st.0, p, neighbor_offset(i as int));
        if ng > 0 {
            let off = neighbor_offset(i as int);
            assert(st.2.contains_key(ng));
            match found {
                Some(f) => {
                    if ng != f {
                        lemma_merged_wf(st, f, ng, w, h);
                        lemma_calc_from_wf(merged(st, f, ng), p, found, i + 1, w, h);
                    } else {
                        lemma_calc_from_wf(st, p, found, i + 1, w, h);
                    }
                },
                None => {
                    let s2 = (st.0, st.1, st.2.insert(ng, box_add(st.2[ng], p)));
                    lemma_calc_from_wf(s2, p, Some(ng), i + 1, w, h);
                },
            }
        } else {
            lemma_calc_from_wf(st, p, found, i + 1, w, h);
        }
    }
}

/// Finding a group keeps the map well formed; the group found names a group; the next
/// number grows by one exactly when a new group is made.
proof fn lemma_calc_group_wf(st: TrackState, p: Pos, w: int, h: int)
    requires
        track_wf(st, w, h),
        h > 0,
    ensures
        track_wf(calc_group(st, p).0, w, h),
        calc_group(st, p).0.2.contains_key(calc_group(st, p).1),
        calc_from(st, p, None, 0).1 is Some ==> calc_group(st, p).0.1 == st.1,
        calc_from(st, p, None, 0).1 is None ==> calc_group(st, p).0.1 == (st.1 + 1) as u8 && calc_group(st, p).1
            == st.1,
{
    lemma_calc_from_wf(st, p, None, 0, w, h);
}

/// The width of the map: that of its first row.
pub open spec fn map_width(g: Seq<Seq<u8>>) -> int {
    if g.len() > 0 {
        g[0].len() as int
    } else {
        0
    }
}

/// The state is well formed for its own size, which fits the grid limit.
pub open spec fn track_ok(st: TrackState) -> bool {
    &&& track_wf(st, map_width(st.0), st.0.len() as int)
    &&& st.0.len() <= 32767
    &&& map_width(st.0) <= 32767
}

/// The box lies on a `w` by `h` grid.
pub open spec fn box_in(g: CellGroup, w: int, h: int) -> bool {
    0 <= g.top_left_pos.x <= g.bot_right_pos.x < w && 0 <= g.top_left_pos.y <= g.bot_right_pos.y < h
}

/// Every group's box lies on a `w` by `h` grid.
pub open spec fn boxes_in(st: TrackState, w: int, h: int) -> bool {
    forall|k: u8| #[trigger] st.2.contains_key(k) ==> box_in(st.2[k], w, h)
}

proof fn lemma_merge_box_in(g: Seq<Seq<u8>>, slave: u8, b: CellGroup, n: int, w: int, h: int)
    requires
        box_in(b, w, h),
        0 <= n <= h,
        h <= 32767,
        g.len() == h,
        h > 0 ==> g[0].len() == w,
        w <= 32767,
    ensures
        box_in(merge_box(g, slave, b, n), w, h),
    decreases n,
{
    if n > 0 {
        lemma_merge_box_in(g, slave, b, n - 1, w, h);
        lemma_merge_row_box_in(g[n - 1], n - 1, slave, merge_box(g, slave, b, n - 1), g[0].len() as int, w, h);
    }
}

proof fn lemma_merge_row_box_in(row: Seq<u8>, y: int, slave: u8, b: CellGroup, n: int, w: int, h: int)
    requires
        box_in(b, w, h),
        0 <= y < h,
        0 <= n <= w,
        h <= 32767,
        w <= 32767,
    ensures
        box_in(merge_row_box(row, y, slave, b, n), w, h),
    decreases n,
{
    if n > 0 {
        lemma_merge_row_box_in(row, y, slave, b, n - 1, w, h);
    }
}

proof fn lemma_calc_from_in(st: TrackState, p: Pos, found: Option<u8>, i: nat, w: int, h: int)
    requires
        track_wf(st, w, h),
        boxes_in(st, w, h),
        h > 0,
        h <= 32767,
        w <= 32767,
        0 <= p.x < w,
        0 <= p.y < h,
        found matches Some(f) ==> st.2.contains_key(f),
    ensures
        boxes_in(calc_from(st, p, found, i).0, w, h),
    decreases 24 - i,
{
    if i < 24 {
        let ng = group_at(st.0, p, neighbor_offset(i as int));
        if ng > 0 {
            assert(st.2.contains_key(ng));
            match found {
                Some(f) => {
                    if ng != f {
                        lemma_merged_wf(st, f, ng, w, h);
                        lemma_merge_box_in(st.0, ng, st.2[f], h, w, h);
                        lemma_calc_from_in(merged(st, f, ng), p, found, i + 1, w, h);
                    } else {
                        lemma_calc_from_in(st, p, found, i + 1, w, h);
                    }
                },
                None => {
                    let s2 = (st.0, st.1, st.2.insert(ng, box_add(st.2[ng], p)));
                    lemma_calc_from_in(s2, p, Some(ng), i + 1, w, h);
                },
            }
        } else {
            lemma_calc_from_in(st, p, found, i + 1, w, h);
        }
    }
}

/// Tracking cells of the grid keeps every box on the grid.
proof fn lemma_track_items_in(st: TrackState, items: Seq<(i16, i16, Cell)>, n: int, w: int, h: int)
    requires
        track_wf(st, w, h),
        boxes_in(st, w, h),
        h <= 32767,
        w <= 32767,
        0 <= n <= items.len(),
        forall|j: int| 0 <= j < items.len() ==> 0 <= (#[trigger] items[j]).0 < w && 0 <= items[j].1 < h,
    ensures
        track_wf(track_items(st, items, n), w, h),
        boxes_in(track_items(st, items, n), w, h),
        track_items(st, items, n).0.len() == h,
    decreases n,
{
    if n > 0 {
        lemma_track_items_in(st, items, n - 1, w, h);
        let s = track_items(st, items, n - 1);
        let it = items[n - 1];
        if it.2.spec_is_alive() {
            let p = Pos { x: it.0, y: it.1 };
            lemma_calc_group_wf(s, p, w, h);
            lemma_calc_from_in(s, p, None, 0, w, h);
            lemma_calc_from_wf(s, p, None, 0, w, h);
            let r = calc_group(s, p);
            let t = track_items(st, items, n);
            assert(track_wf(t, w, h)) by {
                assert forall|yy: int, xx: int| 0 <= yy < h && 0 <= xx < w && #[trigger] t.0[yy][xx] != 0 implies t.2.contains_key(t.0[yy][xx]) by {
                    if yy == it.1 && xx == it.0 {
                    } else {
                        assert(t.0[yy][xx] == r.0.0[yy][xx]);
                    }
                }
            }
        }
    }
}

/// No live cell lies on the border of a `w` by `h` grid.
pub open spec fn border_free(rows: Rows, w: int, h: int) -> bool {
    forall|y: int, x: int|
        0 <= y < h && 0 <= x < w && (#[trigger] rows[y][x]).spec_is_alive() ==> 0 < x < w - 1 && 0 < y < h - 1
}

/// The map fits the grid of `life`.
pub open spec fn fits(st: TrackState, life: Life) -> bool {
    &&& st.0.len() == life.height()
    &&& life.height() > 0 ==> map_width(st.0) == life.width()
}

/// The size of a group's box.
pub open spec fn group_size(g: CellGroup) -> Pos {
    Pos {
        x: (g.bot_right_pos.x - g.top_left_pos.x + 1) as i16,
        y: (g.bot_right_pos.y - g.top_left_pos.y + 1) as i16,
    }
}

/// The cells of a group's box.
pub open spec fn group_rows(rows: Rows, g: CellGroup) -> Rows {
    copy_rows(rows, g.top_left_pos, group_size(g))
}

/// Classification can run on the cells of the group's box, under Conway's rule.
pub open spec fn group_classifiable(rows: Rows, g: CellGroup) -> bool {
    classify_pre(LifeRule::gol_spec(), group_rows(rows, g), group_size(g).x as int, group_size(g).y as int)
}

/// `p` is the pattern of the group's box: a basic grid under Conway's rule holding the
/// cells of the box, classified.
pub open spec fn group_pattern(rows: Rows, g: CellGroup, p: Pattern) -> bool {
    exists|before: Pattern|
        {
            &&& before.life.wf()
            &&& before.life.kind() == LifeAlgoSelect::Basic
            &&& before.life.spec_rule() == LifeRule::gol_spec()
            &&& before.life.spec_generation() == 0
            &&& before.life.spec_size() == group_size(g)
            &&& before.life.rows() == group_rows(rows, g)
            &&& before.life.counted()
            &&& before.metadata.name is None
            &&& before.metadata.description is None
            &&& before.metadata.classification is None
            &&& before.metadata.period_or_pop_or_lifespan is None
            &&& #[trigger] classify_post(before, p)
        }
}

/// The offset number `i` of `neighbor_offset`.
fn offset_at(i: usize) -> (r: (i32, i32))
    requires
        i < 24,
    ensures
        r.0 == neighbor_offset(i as int).0,
        r.1 == neighbor_offset(i as int).1,
{
    if i == 0 { (-1, -1) }
    else if i == 1 { (0, -1) }
    else if i == 2 { (1, -1) }
    else if i == 3 { (1, 0) }
    else if i == 4 { (1, 1) }
    else if i == 5 { (0, 1) }
    else if i == 6 { (-1, 1) }
    else if i == 7 { (-1, 0) }
    else if i == 8 { (-2, -2) }
    else if i == 9 { (-1, -2) }
    else if i == 10 { (0, -2) }
    else if i == 11 { (1, -2) }
    else if i == 12 { (2, -2) }
    else if i == 13 { (2, -1) }
    else if i == 14 { (2, 0) }
    else if i == 15 { (2, 1) }
    else if i == 16 { (2, 2) }
    else if i == 17 { (1, 2) }
    else if i == 18 { (0, 2) }
    else if i == 19 { (-1, 2) }
    else if i == 20 { (-2, 2) }
    else if i == 21 { (-2, 1) }
    else if i == 22 { (-2, 0) }
    else { (-2, -1) }
}

/// Groups of live cells that lie within two cells of each other, with their boxes.
pub struct CellGroupTracker {
    pub group_grid_map: Vec<Vec<u8>>,
    pub next_group_id: u8,
    pub groups: HashMap<u8, CellGroup>,
}

impl CellGroupTracker {
    /// The tracker as values.
    pub open spec fn state(&self) -> TrackState {
        (self.group_grid_map@.map_values(|r: Vec<u8>| r@), self.next_group_id, self.groups@)
    }

    /// The group number at `pos` moved by `offset`, or 0 off the map.
    pub fn current_group_for_cell(&self, pos: Pos, offset: (i32, i32)) -> (r: u8)
        requires
            0 < self.group_grid_map@.len() <= 32767,
            self.group_grid_map@[0]@.len() <= 32767,
            forall|y: int|
                0 <= y < self.group_grid_map@.len() ==> (#[trigger] self.group_grid_map@[y])@.len()
                    == self.group_grid_map@[0]@.len(),
            -2 <= offset.0 <= 2,
            -2 <= offset.1 <= 2,
        ensures
            r == group_at(self.state().0, pos, (offset.0 as int, offset.1 as int)),
    {
        let final_pos: (i32, i32) = (pos.x as i32 + offset.0, pos.y as i32 + offset.1);
        if final_pos.0 >= 0 && final_pos.0 < self.group_grid_map[0].len() as i32 && final_pos.1 >= 0 && final_pos.1
            < self.group_grid_map.len() as i32 {
            self.group_grid_map[final_pos.1 as usize][final_pos.0 as usize]
        } else {
            0
        }
    }
}

impl CellGroupTracker {
    /// Join group `slave_group` into group `master_group`: renumber its cells, grow the
    /// master box by them, and drop the slave group.
    fn merge_groups(&mut self, master_group: u8, slave_group: u8)
        requires
            track_ok(old(self).state()),
            old(self).state().2.contains_key(master_group),
            master_group != slave_group,
        ensures
            final(self).state() == merged(old(self).state(), master_group, slave_group),
            track_ok(final(self).state()),
    {
        let ghost st0 = self.state();
        let ghost g0 = st0.0;
        let ghost b0 = st0.2[master_group];
        let ghost w = map_width(g0);
        let h = self.group_grid_map.len();
        proof {
            lemma_merged_wf(st0, master_group, slave_group, w, h as int);
            assert(st0.2.insert(master_group, merge_box(g0, slave_group, b0, 0)) =~= st0.2);
        }
        let mut y: usize = 0;
        while y < h
            invariant
                h == g0.len(),
                h <= 32767,
                w <= 32767,
                0 <= y <= h,
                self.next_group_id == st0.1,
                self.group_grid_map@.len() == h,
                forall|k: int| 0 <= k < y ==> #[trigger] self.group_grid_map@[k]@ == relabel(g0, slave_group, master_group)[k],
                forall|k: int| y <= k < h ==> #[trigger] self.group_grid_map@[k]@ == g0[k],
                forall|k: int| 0 <= k < h ==> (#[trigger] g0[k]).len() == w,
                self.groups@ == st0.2.insert(master_group, merge_box(g0, slave_group, b0, y as int)),
            decreases h - y,
        {
            let w_exec = self.group_grid_map[0].len();
            let mut row: Vec<u8> = Vec::new();
            let mut x: usize = 0;
            let ghost mb = merge_box(g0, slave_group, b0, y as int);
            proof {
                if y > 0 {
                    assert(self.group_grid_map@[0]@ == relabel(g0, slave_group, master_group)[0]);
                }
            }
            assert(w_exec == w);
            while x < w_exec
                invariant
                    w_exec == w,
                    h == g0.len(),
                    w <= 32767,
                    y < h,
                    h <= 32767,
                    0 <= x <= w,
                    self.group_grid_map@.len() == h,
                    self.next_group_id == st0.1,
                    forall|k: int| 0 <= k < y ==> #[trigger] self.group_grid_map@[k]@ == relabel(g0, slave_group, master_group)[k],
                    forall|k: int| y <= k < h ==> #[trigger] self.group_grid_map@[k]@ == g0[k],
                    forall|k: int| 0 <= k < h ==> (#[trigger] g0[k]).len() == w,
                    row@ == relabel(g0, slave_group, master_group)[y as int].take(x as int),
                    self.groups@ == st0.2.insert(master_group, merge_row_box(g0[y as int], y as int, slave_group, mb, x as int)),
                decreases w - x,
            {
                let v = self.group_grid_map[y][x];
                assert(v == g0[y as int][x as int]);
                if v == slave_group {
                    row.push(master_group);
                    let mut g = *self.groups.get(&master_group).unwrap();
                    g.add(Pos { x: x as i16, y: y as i16 });
                    self.groups.insert(master_group, g);
                } else {
                    row.push(v);
                }
                proof {
                    assert(self.groups@ =~= st0.2.insert(master_group, merge_row_box(g0[y as int], y as int, slave_group, mb, x + 1)));
                }
                x = x + 1;
                proof {
                    lemma_relabel_shape(g0, slave_group, master_group, w, h as int);
                    assert(row@ =~= relabel(g0, slave_group, master_group)[y as int].take(x as int));
                }
            }
            proof {
                assert(row@ =~= relabel(g0, slave_group, master_group)[y as int]);
                assert(merge_box(g0, slave_group, b0, y + 1) == merge_row_box(g0[y as int], y as int, slave_group, mb, g0[0].len() as int));
            }
            self.group_grid_map.set(y, row);
            y = y + 1;
        }
        self.groups.remove(&slave_group);
        proof {
            assert(self.state().0 =~= relabel(g0, slave_group, master_group));
            assert(self.state().2 =~= merged(st0, master_group, slave_group).2);
        }
    }
}

impl CellGroupTracker {
    /// The group of the cell at `pos`: the first group found among the cells within two
    /// steps takes the cell into its box, and every other group found is merged into it;
    /// with no group near, a new group of the cell alone gets the next number.
    fn calc_group_for_cell(&mut self, pos: Pos) -> (r: u8)
        requires
            track_ok(old(self).state()),
            old(self).state().0.len() > 0,
            calc_from(old(self).state(), pos, None, 0).1 is None ==> old(self).next_group_id < 255,
        ensures
            (final(self).state(), r) == calc_group(old(self).state(), pos),
            track_ok(final(self).state()),
            final(self).state().2.contains_key(r),
    {
        let ghost st0 = self.state();
        let ghost w = map_width(st0.0);
        let ghost h = st0.0.len() as int;
        let mut found_group: Option<u8> = None;
        let mut i: usize = 0;
        while i < 24
            invariant
                0 <= i <= 24,
                track_ok(self.state()),
                self.state().0.len() == h,
                h > 0,
                map_width(self.state().0) == w,
                self.next_group_id == st0.1,
                found_group matches Some(f) ==> self.state().2.contains_key(f),
                calc_from(self.state(), pos, found_group, i as nat) == calc_from(st0, pos, None, 0),
            decreases 24 - i,
        {
            let off = offset_at(i);
            proof {
                assert forall|y: int| 0 <= y < self.group_grid_map@.len() implies (#[trigger] self.group_grid_map@[y])@.len()
                    == self.group_grid_map@[0]@.len() by {
                    assert(self.state().0[y] == self.group_grid_map@[y]@);
                    assert(self.state().0[0] == self.group_grid_map@[0]@);
                }
            }
            let neigh_group = self.current_group_for_cell(pos, off);
            let ghost st = self.state();
            if neigh_group > 0 {
                proof {
                    let ng = group_at(st.0, pos, neighbor_offset(i as int));
                    assert(ng == neigh_group);
                }
                match found_group {
                    Some(group) => {
                        if neigh_group != group {
                            self.merge_groups(group, neigh_group);
                            proof {
                                lemma_merged_wf(st, group, neigh_group, w, h);
                            }
                        }
                    },
                    None => {
                        let mut g = *self.groups.get(&neigh_group).unwrap();
                        g.add(pos);
                        self.groups.insert(neigh_group, g);
                        found_group = Some(neigh_group);
                        proof {
                            assert(self.state() == (st.0, st.1, st.2.insert(neigh_group, box_add(st.2[neigh_group], pos))));
                        }
                    },
                }
            }
            i = i + 1;
        }
        proof {
            lemma_calc_from_wf(st0, pos, None, 0, w, h);
        }
        match found_group {
            Some(g) => g,
            None => {
                let group_id = self.next_group_id;
                self.next_group_id = self.next_group_id + 1;
                self.groups.insert(group_id, CellGroup::new(pos));
                group_id
            },
        }
    }
}

/// Every entry of the first `n` rows of a `w` wide grid lies on the grid and holds the
/// cell there.
proof fn lemma_grid_items(rows: Rows, w: int, h: int, n: int)
    requires
        rows_wf(rows, w, h),
        0 <= n <= h,
        h <= 32767,
        w <= 32767,
        w >= 0,
    ensures
        forall|k: int|
            0 <= k < grid_items(rows, n).len() ==> {
                let it = #[trigger] grid_items(rows, n)[k];
                &&& 0 <= it.0 < w
                &&& 0 <= it.1 < n
                &&& it.2 == rows[it.1 as int][it.0 as int]
            },
    decreases n,
{
    if n > 0 {
        lemma_grid_items(rows, w, h, n - 1);
        let a = grid_items(rows, n - 1);
        let b = row_items(rows[n - 1], n - 1);
        assert forall|k: int| 0 <= k < grid_items(rows, n).len() implies {
            let it = #[trigger] grid_items(rows, n)[k];
            &&& 0 <= it.0 < w
            &&& 0 <= it.1 < n
            &&& it.2 == rows[it.1 as int][it.0 as int]
        } by {
            if k < a.len() {
                assert(grid_items(rows, n)[k] == a[k]);
            } else {
                assert(grid_items(rows, n)[k] == b[k - a.len()]);
            }
        }
    }
}

/// The first `n` rows of a `w` wide grid have `n * w` entries.
proof fn lemma_grid_items_len(rows: Rows, w: int, h: int, n: int)
    requires
        rows_wf(rows, w, h),
        0 <= n <= h,
        w >= 0,
    ensures
        grid_items(rows, n).len() == n * w,
        grid_items(rows, n).len() == w * n,
    decreases n,
{
    assert(n * w == w * n) by (nonlinear_arith);
    if n > 0 {
        lemma_grid_items_len(rows, w, h, n - 1);
        assert(rows[n - 1].len() == w);
        assert(row_items(rows[n - 1], n - 1).len() == w);
        assert(grid_items(rows, n) == grid_items(rows, n - 1) + row_items(rows[n - 1], n - 1));
        assert(grid_items(rows, n).len() == (n - 1) * w + w);
        assert((n - 1) * w + w == n * w) by (nonlinear_arith);
    } else {
        assert(n * w == 0) by (nonlinear_arith)
            requires
                n == 0,
        ;
    }
}

/// Fewer entries hold no more live cells.
proof fn lemma_alive_count_mono(items: Seq<(i16, i16, Cell)>, k: int, n: int)
    requires
        0 <= k <= n,
    ensures
        alive_count(items, k) <= alive_count(items, n),
    decreases n - k,
{
    if k < n {
        lemma_alive_count_mono(items, k, n - 1);
    }
}

impl CellGroupTracker {
    /// Set the group number of the cell at `(x, y)`.
    fn set_group(&mut self, x: usize, y: usize, id: u8)
        requires
            y < old(self).group_grid_map@.len(),
            x < old(self).group_grid_map@[y as int]@.len(),
        ensures
            final(self).state() == (
                old(self).state().0.update(y as int, old(self).state().0[y as int].update(x as int, id)),
                old(self).state().1,
                old(self).state().2,
            ),
    {
        let ghost st0 = self.state();
        let n = self.group_grid_map[y].len();
        let mut row: Vec<u8> = Vec::new();
        let mut i: usize = 0;
        while i < n
            invariant
                0 <= i <= n,
                x < n,
                n == st0.0[y as int].len(),
                y < self.group_grid_map@.len(),
                self.state() == st0,
                row@ == st0.0[y as int].update(x as int, id).take(i as int),
            decreases n - i,
        {
            proof {
                assert(st0.0[y as int] == self.group_grid_map@[y as int]@);
            }
            let v = if i == x {
                id
            } else {
                self.group_grid_map[y][i]
            };
            row.push(v);
            i = i + 1;
            proof {
                assert(row@ =~= st0.0[y as int].update(x as int, id).take(i as int));
            }
        }
        self.group_grid_map.set(y, row);
        proof {
            assert(row@ =~= st0.0[y as int].update(x as int, id));
            assert(self.state().0 =~= st0.0.update(y as int, st0.0[y as int].update(x as int, id)));
        }
    }

    /// Give every live cell of `items` its group, in order (see `track_items`).
    fn track(&mut self, items: &Vec<(i16, i16, Cell)>, Ghost(rows): Ghost<Rows>)
        requires
            track_ok(old(self).state()),
            rows_wf(rows, map_width(old(self).state().0), old(self).state().0.len() as int),
            items@ == grid_items(rows, old(self).state().0.len() as int),
            old(self).next_group_id + alive_count(items@, items@.len() as int) <= 255,
        ensures
            final(self).state() == track_items(old(self).state(), items@, items@.len() as int),
            final(self).next_group_id <= old(self).next_group_id + alive_count(items@, items@.len() as int),
            track_ok(final(self).state()),
            final(self).state().0.len() == old(self).state().0.len(),
            map_width(final(self).state().0) == map_width(old(self).state().0),
    {
        let ghost st0 = self.state();
        let ghost w = map_width(st0.0);
        let ghost h = st0.0.len() as int;
        proof {
            lemma_grid_items(rows, w, h, h);
        }
        let mut k: usize = 0;
        while k < items.len()
            invariant
                0 <= k <= items@.len(),
                items@ == grid_items(rows, h),
                forall|j: int|
                    0 <= j < items@.len() ==> {
                        let it = #[trigger] items@[j];
                        &&& 0 <= it.0 < w
                        &&& 0 <= it.1 < h
                    },
                track_ok(self.state()),
                self.state().0.len() == h,
                map_width(self.state().0) == w,
                self.state() == track_items(st0, items@, k as int),
                self.next_group_id <= st0.1 + alive_count(items@, k as int),
                st0.1 + alive_count(items@, items@.len() as int) <= 255,
            decreases items@.len() - k,
        {
            let (x, y, cell) = items[k];
            if cell.is_alive() {
                let ghost st = self.state();
                let p = Pos { x, y };
                proof {
                    lemma_alive_count_mono(items@, k + 1, items@.len() as int);
                    lemma_calc_group_wf(st, p, w, h);
                }
                let id = self.calc_group_for_cell(p);
                proof {
                    assert(self.state().0[y as int] == self.group_grid_map@[y as int]@);
                }
                self.set_group(x as usize, y as usize, id);
                proof {
                    let s1 = calc_group(st, p).0;
                    assert(track_wf(self.state(), w, h)) by {
                        assert forall|yy: int, xx: int| 0 <= yy < h && 0 <= xx < w && #[trigger] self.state().0[yy][xx] != 0 implies self.state().2.contains_key(self.state().0[yy][xx]) by {
                            if yy == y && xx == x {
                            } else {
                                assert(self.state().0[yy][xx] == s1.0[yy][xx]);
                            }
                        }
                    }
                }
            }
            k = k + 1;
        }
    }
}

impl CellGroupTracker {
    /// A tracker for the grid of `life`, with every live cell given its group, row by
    /// row (see `setup_tracking`).
    pub fn new(life: &Life) -> (t: Self)
        requires
            life.wf(),
            1 + alive_count(grid_items(life.rows(), life.height()), life.width() * life.height()) <= 255,
        ensures
            t.state() == track_items(
                empty_track(life.width(), life.height()),
                grid_items(life.rows(), life.height()),
                life.width() * life.height(),
            ),
            t.next_group_id <= 1 + alive_count(grid_items(life.rows(), life.height()), life.width() * life.height()),
            track_ok(t.state()),
            boxes_in(t.state(), life.width(), life.height()),
            fits(t.state(), *life),
    {
        let size = life.size();
        proof {
            life.lemma_wf();
        }
        let mut group_grid_map: Vec<Vec<u8>> = Vec::new();
        let mut y: i16 = 0;
        while y < size.y
            invariant
                0 <= y <= size.y,
                0 <= size.x,
                group_grid_map@.map_values(|r: Vec<u8>| r@) == empty_track(size.x as int, size.y as int).0.take(y as int),
            decreases size.y - y,
        {
            let mut row: Vec<u8> = Vec::new();
            let mut x: i16 = 0;
            while x < size.x
                invariant
                    0 <= x <= size.x,
                    row@ == Seq::new(x as nat, |i: int| 0u8),
                decreases size.x - x,
            {
                row.push(0);
                x = x + 1;
                proof {
                    assert(row@ =~= Seq::new(x as nat, |i: int| 0u8));
                }
            }
            let ghost before = group_grid_map@.map_values(|r: Vec<u8>| r@);
            group_grid_map.push(row);
            proof {
                assert(group_grid_map@.map_values(|r: Vec<u8>| r@) =~= before.push(row@));
                assert(empty_track(size.x as int, size.y as int).0[y as int] =~= Seq::new(size.x as nat, |i: int| 0u8));
            }
            y = y + 1;
            proof {
                assert(group_grid_map@.map_values(|r: Vec<u8>| r@) =~= empty_track(size.x as int, size.y as int).0.take(y as int));
            }
        }
        let mut tracker = Self { group_grid_map, next_group_id: 1, groups: HashMap::new() };
        proof {
            assert(empty_track(size.x as int, size.y as int).0.take(size.y as int) =~= empty_track(size.x as int, size.y as int).0);
            assert(tracker.state() =~= empty_track(size.x as int, size.y as int));
            lemma_grid_items_len(life.rows(), size.x as int, size.y as int, size.y as int);
        }
        tracker.setup_tracking(life);
        tracker
    }

    /// Give every live cell of `life` its group, row by row (see `track_items`).
    pub fn setup_tracking(&mut self, life: &Life)
        requires
            life.wf(),
            track_ok(old(self).state()),
            boxes_in(old(self).state(), life.width(), life.height()),
            fits(old(self).state(), *life),
            old(self).next_group_id + alive_count(grid_items(life.rows(), life.height()), life.width() * life.height()) <= 255,
        ensures
            final(self).state() == track_items(
                old(self).state(),
                grid_items(life.rows(), life.height()),
                life.width() * life.height(),
            ),
            final(self).next_group_id <= old(self).next_group_id + alive_count(
                grid_items(life.rows(), life.height()),
                life.width() * life.height(),
            ),
            track_ok(final(self).state()),
            boxes_in(final(self).state(), life.width(), life.height()),
            fits(final(self).state(), *life),
    {
        self.track_life(life);
    }

    /// Give every live cell of `life` its group again, row by row, merging the groups that
    /// have come near each other. A live cell on the border is a pattern leaving the grid,
    /// which the tracker does not follow: the grid must have none.
    pub fn update(&mut self, life: &Life)
        requires
            life.wf(),
            border_free(life.rows(), life.width(), life.height()),
            track_ok(old(self).state()),
            boxes_in(old(self).state(), life.width(), life.height()),
            fits(old(self).state(), *life),
            old(self).next_group_id + alive_count(grid_items(life.rows(), life.height()), life.width() * life.height()) <= 255,
        ensures
            final(self).state() == track_items(
                old(self).state(),
                grid_items(life.rows(), life.height()),
                life.width() * life.height(),
            ),
            final(self).next_group_id <= old(self).next_group_id + alive_count(
                grid_items(life.rows(), life.height()),
                life.width() * life.height(),
            ),
            track_ok(final(self).state()),
            boxes_in(final(self).state(), life.width(), life.height()),
            fits(final(self).state(), *life),
    {
        self.track_life(life);
    }

    fn track_life(&mut self, life: &Life)
        requires
            life.wf(),
            track_ok(old(self).state()),
            boxes_in(old(self).state(), life.width(), life.height()),
            fits(old(self).state(), *life),
            old(self).next_group_id + alive_count(grid_items(life.rows(), life.height()), life.width() * life.height()) <= 255,
        ensures
            final(self).state() == track_items(
                old(self).state(),
                grid_items(life.rows(), life.height()),
                life.width() * life.height(),
            ),
            final(self).next_group_id <= old(self).next_group_id + alive_count(
                grid_items(life.rows(), life.height()),
                life.width() * life.height(),
            ),
            track_ok(final(self).state()),
            boxes_in(final(self).state(), life.width(), life.height()),
            fits(final(self).state(), *life),
    {
        proof {
            life.lemma_wf();
            lemma_grid_items_len(life.rows(), life.width(), life.height(), life.height());
            lemma_grid_items(life.rows(), life.width(), life.height(), life.height());
        }
        let items = life.iter();
        let ghost w = map_width(self.state().0);
        self.track(&items, Ghost(life.rows()));
        proof {
            lemma_track_items_in(old(self).state(), items@, items@.len() as int, life.width(), life.height());
        }
    }
}

impl CellGroupTracker {
    /// The pattern of each group, in the order the group table is walked: the cells of
    /// its box on a basic grid under Conway's rule, classified.
    pub fn to_patterns(&self, life: &Life) -> (v: Vec<Pattern>)
        requires
            life.wf(),
            boxes_in(self.state(), life.width(), life.height()),
            forall|k: u8| #[trigger] self.groups@.contains_key(k) ==> group_classifiable(life.rows(), self.groups@[k]),
        ensures
            exists|ids: Seq<u8>|
                {
                    &&& ids.len() == v@.len()
                    &&& ids.no_duplicates()
                    &&& forall|k: u8| #[trigger] self.groups@.contains_key(k) <==> ids.contains(k)
                    &&& forall|i: int|
                        0 <= i < ids.len() ==> #[trigger] group_pattern(life.rows(), self.groups@[ids[i]], v@[i])
                },
    {
        proof {
            life.lemma_wf();
        }
        let ghost m = self.groups@;
        let ghost rows = life.rows();
        let ghost sq = vstd::std_specs::hash::spec_hash_map_iter(&self.groups).remaining();
        let mut v: Vec<Pattern> = Vec::new();
        for kv in it: self.groups.iter()
            invariant
                it.seq() == sq,
                life.wf(),
                rows == life.rows(),
                m == self.groups@,
                v@.len() == it.index(),
                sq.len() == m.len(),
                sq.no_duplicates(),
                forall|i: int| 0 <= i < sq.len() ==> m.contains_key(*sq[i].0) && m[*sq[i].0] == *sq[i].1,
                forall|k: u8| #[trigger] m.contains_key(k) ==> sq.contains((&k, &m[k])),
                boxes_in(self.state(), life.width(), life.height()),
                forall|k: u8| #[trigger] m.contains_key(k) ==> group_classifiable(rows, m[k]),
                forall|i: int| 0 <= i < v@.len() ==> #[trigger] group_pattern(rows, m[*sq[i].0], v@[i]),
        {
            let g: CellGroup = *kv.1;
            let ghost idx = v@.len() as int;
            proof {
                assert(m.contains_key(*sq[idx].0));
                assert(g == m[*sq[idx].0]);
                assert(self.state().2.contains_key(*sq[idx].0));
                assert(box_in(g, life.width(), life.height()));
            }
            let size = Pos {
                x: g.bot_right_pos.x - g.top_left_pos.x + 1,
                y: g.bot_right_pos.y - g.top_left_pos.y + 1,
            };
            let new_life = life.copy_ruled(g.top_left_pos, size, LifeRule::gol());
            let mut pattern = Pattern::new_unclassified(new_life);
            let ghost before = pattern;
            pattern.classify();
            proof {
                assert(group_pattern(rows, g, pattern)) by {
                    assert(classify_post(before, pattern));
                }
            }
            v.push(pattern);
        }
        proof {
            let ids = sq.map_values(|kv: (&u8, &CellGroup)| *kv.0);
            assert(ids.no_duplicates()) by {
                assert forall|i: int, j: int| 0 <= i < ids.len() && 0 <= j < ids.len() && i != j implies ids[i] != ids[j] by {
                    if ids[i] == ids[j] {
                        assert(*sq[i].1 == m[ids[i]]);
                        assert(*sq[j].1 == m[ids[j]]);
                        assert(sq[i] == sq[j]);
                    }
                }
            }
            assert forall|k: u8| #[trigger] m.contains_key(k) <==> ids.contains(k) by {
                if m.contains_key(k) {
                    let j = choose|j: int| 0 <= j < sq.len() && sq[j] == (&k, &m[k]);
                    assert(ids[j] == k);
                }
                if ids.contains(k) {
                    let j = choose|j: int| 0 <= j < ids.len() && ids[j] == k;
                    assert(m.contains_key(*sq[j].0));
                }
            }
        }
        v
    }
}

/// The grid `identify` steps: the cells of a `w` by `h` grid (as faction 0) with a border
/// of three dead cells.
pub open spec fn padded(rows: Rows, w: int, h: int) -> Rows {
    paste_rows(dead_rows(w + 6, h + 6), rows, Pos { x: 3, y: 3 }, 0)
}

proof fn lemma_padded_states(rows: Rows, w: int, h: int)
    requires
        states_valid(rows),
        rows_wf(rows, w, h),
        w >= 0,
        h >= 0,
    ensures
        states_valid(padded(rows, w, h)),
        rows_wf(padded(rows, w, h), w + 6, h + 6),
{
    crate::life::lemma_dead_cell();
    let b = padded(rows, w, h);
    assert forall|y: int, x: int| 0 <= y < b.len() && 0 <= x < b[y].len() implies (#[trigger] b[y][x]).spec_state() < 4 by {
        let sx = x - 3;
        let sy = y - 3;
        if 0 <= sy < rows.len() && 0 <= sx < rows[sy].len() {
            crate::life::lemma_packed_faction(rows[sy][sx].spec_state(), 0);
            assert(rows[sy][sx].spec_state() < 4);
        }
    }
}

/// The hash `Life::hash` gives a grid of `h` rows.
pub open spec fn grid_hash(g: Rows, h: int) -> u64 {
    DefaultHasher::spec_finish(seq![grid_bytes(g, h)])
}

/// The tracking from generation `k` on: each step the grid advances and every live cell
/// is given its group again; it stops once the grid hashes as the first one did, or after
/// generation 32. The final state and generation.
pub open spec fn identify_run(rule: LifeRule, g0: Rows, w: int, h: int, st: TrackState, k: nat) -> (TrackState, nat)
    decreases 32 - k,
{
    if k >= 32 {
        (st, k)
    } else {
        let g = evolve(rule, g0, w, h, k + 1);
        let st2 = track_items(st, grid_items(g, h), w * h);
        if grid_hash(g, h) == grid_hash(g0, h) {
            (st2, k + 1)
        } else {
            identify_run(rule, g0, w, h, st2, k + 1)
        }
    }
}

/// The live cells of the generations `0` to `k`, counted together.
pub open spec fn alive_total(rule: LifeRule, g0: Rows, w: int, h: int, k: nat) -> int
    decreases k,
{
    alive_count(grid_items(evolve(rule, g0, w, h, k), h), w * h) + if k == 0 {
        0
    } else {
        alive_total(rule, g0, w, h, (k - 1) as nat)
    }
}

/// The tracking that `identify` makes of `life`: its final state and generation.
pub open spec fn identify_final(life: Life) -> (TrackState, nat) {
    let w = life.width() + 6;
    let h = life.height() + 6;
    let g0 = padded(life.rows(), life.width(), life.height());
    identify_run(
        life.spec_rule(),
        g0,
        w,
        h,
        track_items(empty_track(w, h), grid_items(g0, h), w * h),
        0,
    )
}

proof fn lemma_alive_total_mono(rule: LifeRule, g0: Rows, w: int, h: int, j: nat, k: nat)
    requires
        j <= k,
    ensures
        alive_total(rule, g0, w, h, j) <= alive_total(rule, g0, w, h, k),
        alive_count(grid_items(evolve(rule, g0, w, h, j), h), w * h) <= alive_total(rule, g0, w, h, k),
    decreases k,
{
    lemma_alive_count_nonneg(grid_items(evolve(rule, g0, w, h, k), h), w * h);
    if j < k {
        lemma_alive_total_mono(rule, g0, w, h, j, (k - 1) as nat);
    } else if k > 0 {
        lemma_alive_total_nonneg(rule, g0, w, h, (k - 1) as nat);
    }
}

proof fn lemma_alive_total_nonneg(rule: LifeRule, g0: Rows, w: int, h: int, k: nat)
    ensures
        alive_total(rule, g0, w, h, k) >= 0,
    decreases k,
{
    lemma_alive_count_nonneg(grid_items(evolve(rule, g0, w, h, k), h), w * h);
    if k > 0 {
        lemma_alive_total_nonneg(rule, g0, w, h, (k - 1) as nat);
    }
}

proof fn lemma_alive_count_nonneg(items: Seq<(i16, i16, Cell)>, n: int)
    ensures
        alive_count(items, n) >= 0,
    decreases n,
{
    if n > 0 {
        lemma_alive_count_nonneg(items, n - 1);
    }
}

/// Find the patterns of a grid: its cells, as faction 0 with a border of three dead
/// cells, are stepped by the cached algorithm for up to 32 generations (stopping when the
/// grid hashes as it started) while a tracker groups the live cells that lie within two
/// cells of each other; the pattern of each final group is the classified box of its
/// cells (see `to_patterns`).
pub fn identify(life: &Life) -> (v: Vec<Pattern>)
    requires
        life.wf(),
        life.width() + 6 <= max_dim(),
        life.height() + 6 <= max_dim(),
        quiet(life.spec_rule()),
        states_valid(life.rows()),
        1 + alive_total(
            life.spec_rule(),
            padded(life.rows(), life.width(), life.height()),
            life.width() + 6,
            life.height() + 6,
            32,
        ) <= 255,
        forall|k: nat|
            1 <= k <= 32 ==> #[trigger] border_free(
                evolve(
                    life.spec_rule(),
                    padded(life.rows(), life.width(), life.height()),
                    life.width() + 6,
                    life.height() + 6,
                    k,
                ),
                life.width() + 6,
                life.height() + 6,
            ),
        forall|k: u8| #[trigger]
            identify_final(*life).0.2.contains_key(k) ==> group_classifiable(
                evolve(
                    life.spec_rule(),
                    padded(life.rows(), life.width(), life.height()),
                    life.width() + 6,
                    life.height() + 6,
                    identify_final(*life).1,
                ),
                identify_final(*life).0.2[k],
            ),
    ensures
        ({
            let fin = identify_final(*life);
            let g = evolve(
                life.spec_rule(),
                padded(life.rows(), life.width(), life.height()),
                life.width() + 6,
                life.height() + 6,
                fin.1,
            );
            exists|ids: Seq<u8>|
                {
                    &&& ids.len() == v@.len()
                    &&& ids.no_duplicates()
                    &&& forall|k: u8| #[trigger] fin.0.2.contains_key(k) <==> ids.contains(k)
                    &&& forall|i: int| 0 <= i < ids.len() ==> #[trigger] group_pattern(g, fin.0.2[ids[i]], v@[i])
                }
        }),
{
    proof {
        life.lemma_wf();
    }
    let size = life.size();
    let rule = *life.get_rule();
    let big = Pos { x: size.x + 6, y: size.y + 6 };
    let ghost bw = big.x as int;
    let ghost bh = big.y as int;
    let ghost g0 = padded(life.rows(), size.x as int, size.y as int);
    let mut test_life = Life::new_ex(big, LifeOptions { algo: LifeAlgoSelect::Cached, rule });
    test_life.paste(life, Pos { x: 3, y: 3 }, None);
    proof {
        assert(test_life.rows() == g0);
        assert(rows_wf(life.rows(), size.x as int, size.y as int));
        lemma_padded_states(life.rows(), size.x as int, size.y as int);
        lemma_alive_total_mono(rule, g0, bw, bh, 0, 32);
        lemma_grid_items_len(g0, bw, bh, bh);
    }
    let mut tracker = CellGroupTracker::new(&test_life);
    let start_hash = test_life.hash();
    let ghost fin = identify_final(*life);
    let mut i: usize = 0;
    let mut done = false;
    while i < 32 && !done
        invariant
            0 <= i <= 32,
            test_life.wf(),
            test_life.kind() == LifeAlgoSelect::Cached,
            test_life.spec_size() == big,
            test_life.spec_rule() == rule,
            bw == big.x,
            bh == big.y,
            0 <= bw,
            0 <= bh,
            states_valid(g0),
            rows_wf(g0, bw, bh),
            test_life.rows() == evolve(rule, g0, bw, bh, i as nat),
            states_valid(test_life.rows()),
            start_hash == grid_hash(g0, bh),
            track_ok(tracker.state()),
            boxes_in(tracker.state(), bw, bh),
            fits(tracker.state(), test_life),
            tracker.next_group_id <= 1 + alive_total(rule, g0, bw, bh, i as nat),
            1 + alive_total(rule, g0, bw, bh, 32) <= 255,
            forall|k: nat| 1 <= k <= 32 ==> #[trigger] border_free(evolve(rule, g0, bw, bh, k), bw, bh),
            done ==> (tracker.state(), i as nat) == fin,
            !done ==> identify_run(rule, g0, bw, bh, tracker.state(), i as nat) == fin,
        decreases 32 - i,
    {
        test_life.update();
        proof {
            lemma_evolve_states(rule, g0, bw, bh, (i + 1) as nat);
            assert(test_life.rows() == evolve(rule, g0, bw, bh, (i + 1) as nat));
            assert(border_free(evolve(rule, g0, bw, bh, (i + 1) as nat), bw, bh));
            lemma_alive_total_mono(rule, g0, bw, bh, (i + 1) as nat, 32);
            lemma_grid_items_len(test_life.rows(), bw, bh, bh);
        }
        tracker.update(&test_life);
        i = i + 1;
        if test_life.hash() == start_hash {
            done = true;
        }
    }
    proof {
        if !done {
            assert(identify_run(rule, g0, bw, bh, tracker.state(), i as nat) == (tracker.state(), i as nat));
        }
        assert(tracker.state() == fin.0 && i as nat == fin.1);
        assert(tracker.groups@ == fin.0.2);
    }
    tracker.to_patterns(&test_life)
}

} // verus!
