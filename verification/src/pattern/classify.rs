use vstd::prelude::*;

use crate::life::algo::basic::{max_dim, pop_clamp};
use crate::life::algo::{dead_rows, quiet};
use crate::life::file_format::apgcode::{apg_ok, apg_rows, apg_secs, apg_writable, apgcode_text, max_cols};
use crate::life::grid::{next_rows, pop_rows, rows_wf, states_valid, Rows};
use crate::life::transform::{copy_rows, paste_rows};
use crate::life::{Cell, Life, LifeAlgoSelect, LifeOptions, LifeRule, Pos};
use crate::pattern::{Classification, Pattern, PatternMetadata};

verus! {

/// The bounds `(min x, min y, max x, max y)` of the live cells of `row` (row `y`), folded
/// into `acc`.
pub open spec fn row_bounds(row: Seq<Cell>, y: int, acc: (int, int, int, int)) -> (int, int, int, int)
    decreases row.len(),
{
    if row.len() == 0 {
        acc
    } else {
        let a = row_bounds(row.drop_last(), y, acc);
        let x = row.len() - 1;
        if row.last().spec_is_alive() {
            (
                if x < a.0 {
                    x
                } else {
                    a.0
                },
                if y < a.1 {
                    y
                } else {
                    a.1
                },
                if x > a.2 {
                    x
                } else {
                    a.2
                },
                if y > a.3 {
                    y
                } else {
                    a.3
                },
            )
        } else {
            a
        }
    }
}

/// The bounds of the live cells of the first `n` rows, folded into `acc`.
pub open spec fn grid_bounds(rows: Rows, n: int, acc: (int, int, int, int)) -> (int, int, int, int)
    decreases n,
{
    if n <= 0 {
        acc
    } else {
        row_bounds(rows[n - 1], n - 1, grid_bounds(rows, n - 1, acc))
    }
}

/// The top-left and bottom-right corners of the live cells of a `w` by `h` grid; with no
/// live cell they stay at `(w, h)` and `(0, 0)`.
pub open spec fn live_bounds(rows: Rows, w: int, h: int) -> (Pos, Pos) {
    let b = grid_bounds(rows, h, (w, h, 0, 0));
    (Pos { x: b.0 as i16, y: b.1 as i16 }, Pos { x: b.2 as i16, y: b.3 as i16 })
}

proof fn lemma_row_bounds_range(row: Seq<Cell>, y: int, acc: (int, int, int, int))
    requires
        0 <= acc.0,
        0 <= acc.1,
        0 <= acc.2,
        0 <= acc.3,
        0 <= y,
    ensures
        ({
            let b = row_bounds(row, y, acc);
            &&& 0 <= b.0 <= acc.0
            &&& 0 <= b.1 <= acc.1
            &&& acc.2 <= b.2
            &&& b.2 <= acc.2 || b.2 < row.len()
            &&& acc.3 <= b.3 <= (if acc.3 > y {
                acc.3
            } else {
                y
            })
        }),
    decreases row.len(),
{
    if row.len() > 0 {
        lemma_row_bounds_range(row.drop_last(), y, acc);
    }
}

proof fn lemma_grid_bounds_range(rows: Rows, w: int, n: int, acc: (int, int, int, int))
    requires
        0 <= acc.0,
        0 <= acc.1,
        0 <= acc.2 < w || acc.2 == 0,
        0 <= acc.3,
        0 <= n <= rows.len(),
        forall|y: int| 0 <= y < rows.len() ==> (#[trigger] rows[y]).len() == w,
    ensures
        ({
            let b = grid_bounds(rows, n, acc);
            &&& 0 <= b.0 <= acc.0
            &&& 0 <= b.1 <= acc.1
            &&& 0 <= b.2 < w || b.2 == acc.2
            &&& acc.3 <= b.3 <= (if acc.3 > n {
                acc.3
            } else {
                n
            })
        }),
    decreases n,
{
    if n > 0 {
        lemma_grid_bounds_range(rows, w, n - 1, acc);
        lemma_row_bounds_range(rows[n - 1], n - 1, grid_bounds(rows, n - 1, acc));
    }
}

impl Life {
    /// The top-left and bottom-right corners of the live cells (`(width, height)` and
    /// `(0, 0)` when there is none).
    pub fn calc_live_bounds(&self) -> (r: (Pos, Pos))
        requires
            self.wf(),
        ensures
            r == live_bounds(self.rows(), self.width(), self.height()),
    {
        let size = self.size();
        proof {
            self.lemma_wf();
        }
        let ghost rows = self.rows();
        let ghost init = (size.x as int, size.y as int, 0int, 0int);
        let mut min_pos = size;
        let mut max_pos = Pos { x: 0, y: 0 };
        let mut y: i16 = 0;
        while y < size.y
            invariant
                self.wf(),
                rows == self.rows(),
                size == self.spec_size(),
                rows_wf(rows, self.width(), self.height()),
                0 <= size.x <= max_dim(),
                0 <= size.y <= max_dim(),
                0 <= y <= size.y,
                init == (size.x as int, size.y as int, 0int, 0int),
                grid_bounds(rows, y as int, init) == (min_pos.x as int, min_pos.y as int, max_pos.x as int, max_pos.y as int),
            decreases size.y - y,
        {
            let mut x: i16 = 0;
            proof {
                assert(rows[y as int].take(0) =~= Seq::<Cell>::empty());
            }
            while x < size.x
                invariant
                    self.wf(),
                    rows == self.rows(),
                    size == self.spec_size(),
                    rows_wf(rows, self.width(), self.height()),
                    0 <= size.x <= max_dim(),
                    0 <= size.y <= max_dim(),
                    0 <= y < size.y,
                    0 <= x <= size.x,
                    init == (size.x as int, size.y as int, 0int, 0int),
                    row_bounds(rows[y as int].take(x as int), y as int, grid_bounds(rows, y as int, init)) == (
                        min_pos.x as int,
                        min_pos.y as int,
                        max_pos.x as int,
                        max_pos.y as int,
                    ),
                decreases size.x - x,
            {
                proof {
                    let row = rows[y as int];
                    assert(row.take(x + 1).drop_last() =~= row.take(x as int));
                    assert(row.take(x + 1).last() == row[x as int]);
                }
                match self.get_cell(Pos { x, y }) {
                    Some(c) => {
                        if c.is_alive() {
                            if x < min_pos.x {
                                min_pos.x = x;
                            }
                            if y < min_pos.y {
                                min_pos.y = y;
                            }
                            if x > max_pos.x {
                                max_pos.x = x;
                            }
                            if y > max_pos.y {
                                max_pos.y = y;
                            }
                        }
                    },
                    None => {},
                }
                x = x + 1;
            }
            proof {
                assert(rows[y as int].take(size.x as int) =~= rows[y as int]);
            }
            y = y + 1;
        }
        (min_pos, max_pos)
    }
}


/// `a` sorts strictly before `b`, comparing from index `i` on (the order of `str`).
pub open spec fn lex_less(a: Seq<char>, b: Seq<char>, i: int) -> bool
    decreases a.len() - i,
{
    if i < 0 || i >= a.len() {
        0 <= i && i < b.len()
    } else if i >= b.len() {
        false
    } else if a[i] != b[i] {
        a[i] < b[i]
    } else {
        lex_less(a, b, i + 1)
    }
}

/// Whether `a` and `b` hold the same characters.
pub fn chars_eq(a: &Vec<char>, b: &Vec<char>) -> (r: bool)
    ensures
        r == (a@ == b@),
{
    if a.len() != b.len() {
        return false;
    }
    let mut i: usize = 0;
    while i < a.len()
        invariant
            a@.len() == b@.len(),
            i <= a.len(),
            forall|k: int| 0 <= k < i ==> a@[k] == b@[k],
        decreases a.len() - i,
    {
        if a[i] != b[i] {
            return false;
        }
        i = i + 1;
    }
    assert(a@ =~= b@);
    true
}

/// Whether `a` sorts strictly before `b`.
pub fn chars_lt(a: &Vec<char>, b: &Vec<char>) -> (r: bool)
    ensures
        r == lex_less(a@, b@, 0),
{
    let mut i: usize = 0;
    while i < a.len() && i < b.len()
        invariant
            i <= a.len(),
            i <= b.len(),
            lex_less(a@, b@, 0) == lex_less(a@, b@, i as int),
        decreases a.len() - i,
    {
        if a[i] != b[i] {
            return a[i] < b[i];
        }
        i = i + 1;
    }
    i < b.len()
}

/// The grid after `k` generations under `rule`.
pub open spec fn evolve(rule: LifeRule, g: Rows, w: int, h: int, k: nat) -> Rows
    decreases k,
{
    if k == 0 {
        g
    } else {
        next_rows(rule, evolve(rule, g, w, h, (k - 1) as nat), w, h)
    }
}

/// The grid cut to start at the top-left corner of its live cells (reaching one cell past
/// the bottom-right edge), with its width and height; unchanged when the corner is the
/// origin.
pub open spec fn trimmed(g: Rows, w: int, h: int) -> (Rows, int, int) {
    let tl = live_bounds(g, w, h).0;
    if tl == (Pos { x: 0, y: 0 }) {
        (g, w, h)
    } else {
        let aw = w - tl.x + 1;
        let ah = h - tl.y + 1;
        (copy_rows(g, tl, Pos { x: aw as i16, y: ah as i16 }), aw, ah)
    }
}

/// The form a grid is compared by: the apgcode of its trimmed grid.
pub open spec fn form_of(g: Rows, w: int, h: int) -> Seq<char> {
    let t = trimmed(g, w, h);
    apgcode_text(None, None, t.0, t.1, t.2)
}

/// The trimmed grid can be written as an apgcode.
pub open spec fn form_ok(g: Rows, w: int, h: int) -> bool {
    let t = trimmed(g, w, h);
    apg_writable(t.0, t.1, t.2)
}

/// `a` is a better form than `b`: shorter, or as long and sorting first.
pub open spec fn better_form(a: Seq<char>, b: Seq<char>) -> bool {
    a.len() < b.len() || (a.len() == b.len() && lex_less(a, b, 0))
}

/// The population of faction 0 of the grid a form describes.
pub open spec fn form_pop(s: Seq<char>) -> i16 {
    let secs = apg_secs(s);
    pop_clamp(pop_rows(apg_rows(secs, max_cols(secs) as int), 0))
}

/// The result of the classification search from generation `k`, with the best form seen
/// so far, its corner and its generation: `(0, ..)` when nothing was found in 140
/// generations, `(1, ..)` when the pattern died out, `(2, ..)` when a form repeated; then
/// the classification, the number, and the best form.
pub open spec fn classify_search(
    rule: LifeRule,
    g0: Rows,
    w: int,
    h: int,
    init_pop: i16,
    best: Seq<char>,
    best_tl: Pos,
    best_period: u32,
    k: nat,
) -> (int, Option<Classification>, Option<u32>, Seq<char>)
    decreases 140 - k,
{
    if k >= 140 {
        (0, None, None, best)
    } else {
        let g = evolve(rule, g0, w, h, k + 1);
        if pop_rows(g, 0) == 0 {
            (1, Some(Classification::Messless), Some((k + 1) as u32), best)
        } else {
            let tl = live_bounds(g, w, h).0;
            let form = form_of(g, w, h);
            if form == best {
                if k == 0 {
                    (2, Some(Classification::StilLife), Some(form_pop(best) as u32), best)
                } else {
                    (
                        2,
                        Some(
                            if best_tl == tl {
                                Classification::Oscillator
                            } else {
                                Classification::Spaceship
                            },
                        ),
                        Some((k - best_period + 1) as u32),
                        best,
                    )
                }
            } else if better_form(form, best) {
                classify_search(rule, g0, w, h, init_pop, form, tl, (k + 1) as u32, k + 1)
            } else {
                classify_search(rule, g0, w, h, init_pop, best, best_tl, best_period, k + 1)
            }
        }
    }
}

/// When the search stops on a repeated form that is no still life, generation `m` showed a
/// form seen before: either the form it started with, recorded with its top-left corner at
/// `best_tl` in generation `best_period`, or the form of an earlier generation `j` it went
/// through. The number is the distance between the two generations, and the pattern is a
/// spaceship exactly when the form's top-left corner moved between them, an oscillator
/// when it stayed put.
pub proof fn law_classify_moved_corner(
    rule: LifeRule,
    g0: Rows,
    w: int,
    h: int,
    init_pop: i16,
    best: Seq<char>,
    best_tl: Pos,
    best_period: u32,
    k: nat,
)
    ensures
        ({
            let out = classify_search(rule, g0, w, h, init_pop, best, best_tl, best_period, k);
            out.0 == 2 && out.1 != Some(Classification::StilLife) ==> {
                ||| exists|m: nat|
                    #![trigger evolve(rule, g0, w, h, m)]
                    {
                        &&& k < m <= 140
                        &&& form_of(evolve(rule, g0, w, h, m), w, h) == best
                        &&& out.3 == best
                        &&& out.2 == Some((m - best_period) as u32)
                        &&& (out.1 == Some(Classification::Spaceship) <==> live_bounds(evolve(rule, g0, w, h, m), w, h).0 != best_tl)
                        &&& (out.1 == Some(Classification::Oscillator) <==> live_bounds(evolve(rule, g0, w, h, m), w, h).0 == best_tl)
                    }
                ||| exists|j: nat, m: nat|
                    #![trigger evolve(rule, g0, w, h, j), evolve(rule, g0, w, h, m)]
                    {
                        &&& k < j < m <= 140
                        &&& form_of(evolve(rule, g0, w, h, j), w, h) == out.3
                        &&& form_of(evolve(rule, g0, w, h, m), w, h) == out.3
                        &&& out.2 == Some((m - j) as u32)
                        &&& (out.1 == Some(Classification::Spaceship) <==> live_bounds(evolve(rule, g0, w, h, m), w, h).0
                            != live_bounds(evolve(rule, g0, w, h, j), w, h).0)
                        &&& (out.1 == Some(Classification::Oscillator) <==> live_bounds(evolve(rule, g0, w, h, m), w, h).0
                            == live_bounds(evolve(rule, g0, w, h, j), w, h).0)
                    }
            }
        }),
    decreases 140 - k,
{
    if k < 140 {
        let g = evolve(rule, g0, w, h, k + 1);
        if pop_rows(g, 0) != 0 {
            let tl = live_bounds(g, w, h).0;
            let form = form_of(g, w, h);
            if form == best {
                if k != 0 {
                    let m = k + 1;
                    assert(evolve(rule, g0, w, h, m) == g);
                }
            } else if better_form(form, best) {
                law_classify_moved_corner(rule, g0, w, h, init_pop, form, tl, (k + 1) as u32, k + 1);
                let out = classify_search(rule, g0, w, h, init_pop, form, tl, (k + 1) as u32, k + 1);
                if out.0 == 2 && out.1 != Some(Classification::StilLife) {
                    if exists|m: nat|
                        #![trigger evolve(rule, g0, w, h, m)]
                        {
                            &&& k + 1 < m <= 140
                            &&& form_of(evolve(rule, g0, w, h, m), w, h) == form
                            &&& out.3 == form
                            &&& out.2 == Some((m - ((k + 1) as u32)) as u32)
                            &&& (out.1 == Some(Classification::Spaceship) <==> live_bounds(evolve(rule, g0, w, h, m), w, h).0 != tl)
                            &&& (out.1 == Some(Classification::Oscillator) <==> live_bounds(evolve(rule, g0, w, h, m), w, h).0 == tl)
                        } {
                        let m = choose|m: nat|
                            #![trigger evolve(rule, g0, w, h, m)]
                            {
                                &&& k + 1 < m <= 140
                                &&& form_of(evolve(rule, g0, w, h, m), w, h) == form
                                &&& out.3 == form
                                &&& out.2 == Some((m - ((k + 1) as u32)) as u32)
                                &&& (out.1 == Some(Classification::Spaceship) <==> live_bounds(evolve(rule, g0, w, h, m), w, h).0 != tl)
                                &&& (out.1 == Some(Classification::Oscillator) <==> live_bounds(evolve(rule, g0, w, h, m), w, h).0 == tl)
                            };
                        let j: nat = k + 1;
                        assert(evolve(rule, g0, w, h, j) == g);
                        assert((k + 1) as u32 == j);
                    }
                }
            } else {
                law_classify_moved_corner(rule, g0, w, h, init_pop, best, best_tl, best_period, k + 1);
            }
        }
    }
}

/// When the search finds the pattern dead, it is `Messless` with its lifespan: generation
/// `n` is the first after `k` without a live cell of faction 0. When it stops on a still
/// life, the first generation after the start already shows the starting form.
pub proof fn law_classify_lifespan(
    rule: LifeRule,
    g0: Rows,
    w: int,
    h: int,
    init_pop: i16,
    best: Seq<char>,
    best_tl: Pos,
    best_period: u32,
    k: nat,
)
    ensures
        ({
            let out = classify_search(rule, g0, w, h, init_pop, best, best_tl, best_period, k);
            &&& out.0 == 1 ==> out.1 == Some(Classification::Messless) && exists|n: nat|
                #![trigger evolve(rule, g0, w, h, n)]
                {
                    &&& k < n <= 140
                    &&& out.2 == Some(n as u32)
                    &&& pop_rows(evolve(rule, g0, w, h, n), 0) == 0
                    &&& forall|i: nat| k < i < n ==> pop_rows(#[trigger] evolve(rule, g0, w, h, i), 0) != 0
                }
            &&& out.1 == Some(Classification::StilLife) ==> k == 0 && out.0 == 2 && out.3 == best
                && form_of(evolve(rule, g0, w, h, 1), w, h) == best
        }),
    decreases 140 - k,
{
    if k < 140 {
        let g = evolve(rule, g0, w, h, k + 1);
        if pop_rows(g, 0) == 0 {
            let n: nat = k + 1;
            assert(evolve(rule, g0, w, h, n) == g);
        } else {
            let form = form_of(g, w, h);
            if form != best {
                let nb = if better_form(form, best) {
                    form
                } else {
                    best
                };
                let nt = if better_form(form, best) {
                    live_bounds(g, w, h).0
                } else {
                    best_tl
                };
                let np = if better_form(form, best) {
                    (k + 1) as u32
                } else {
                    best_period
                };
                law_classify_lifespan(rule, g0, w, h, init_pop, nb, nt, np, k + 1);
                let out = classify_search(rule, g0, w, h, init_pop, nb, nt, np, k + 1);
                if out.0 == 1 {
                    let n = choose|n: nat|
                        #![trigger evolve(rule, g0, w, h, n)]
                        {
                            &&& k + 1 < n <= 140
                            &&& out.2 == Some(n as u32)
                            &&& pop_rows(evolve(rule, g0, w, h, n), 0) == 0
                            &&& forall|i: nat| k + 1 < i < n ==> pop_rows(#[trigger] evolve(rule, g0, w, h, i), 0) != 0
                        };
                    assert forall|i: nat| k < i < n implies pop_rows(#[trigger] evolve(rule, g0, w, h, i), 0) != 0 by {
                        if i == k + 1 {
                            assert(evolve(rule, g0, w, h, i) == g);
                        }
                    }
                }
            }
        }
    }
}

/// Every form the search writes can be written, and a repeated form can be read back.
pub open spec fn classify_ok(rule: LifeRule, g0: Rows, w: int, h: int, best: Seq<char>, k: nat) -> bool
    decreases 140 - k,
{
    if k >= 140 {
        true
    } else {
        let g = evolve(rule, g0, w, h, k + 1);
        if pop_rows(g, 0) == 0 {
            true
        } else {
            let form = form_of(g, w, h);
            &&& form_ok(g, w, h)
            &&& if form == best {
                apg_ok(best)
            } else if better_form(form, best) {
                classify_ok(rule, g0, w, h, form, k + 1)
            } else {
                classify_ok(rule, g0, w, h, best, k + 1)
            }
        }
    }
}

/// The grid classification starts from: the pattern with a border of one dead cell.
pub open spec fn bordered(rows: Rows, w: int, h: int) -> Rows {
    paste_rows(dead_rows(w + 2, h + 2), rows, Pos { x: 1, y: 1 }, 0)
}

pub proof fn lemma_evolve_states(rule: LifeRule, g: Rows, w: int, h: int, k: nat)
    requires
        states_valid(g),
        rows_wf(g, w, h),
        w >= 0,
        h >= 0,
    ensures
        states_valid(evolve(rule, g, w, h, k)),
        rows_wf(evolve(rule, g, w, h, k), w, h),
    decreases k,
{
    if k > 0 {
        lemma_evolve_states(rule, g, w, h, (k - 1) as nat);
        crate::life::grid::lemma_next_states_valid(rule, evolve(rule, g, w, h, (k - 1) as nat), w, h);
    }
}

proof fn lemma_bordered_states(rows: Rows, w: int, h: int)
    requires
        states_valid(rows),
        rows_wf(rows, w, h),
        w >= 0,
        h >= 0,
    ensures
        states_valid(bordered(rows, w, h)),
        rows_wf(bordered(rows, w, h), w + 2, h + 2),
{
    crate::life::lemma_dead_cell();
    let b = bordered(rows, w, h);
    assert forall|y: int, x: int| 0 <= y < b.len() && 0 <= x < b[y].len() implies (#[trigger] b[y][x]).spec_state() < 4 by {
        let sx = x - 1;
        let sy = y - 1;
        if 0 <= sy < rows.len() && 0 <= sx < rows[sy].len() {
            crate::life::lemma_packed_faction(rows[sy][sx].spec_state(), 0);
            assert(rows[sy][sx].spec_state() < 4);
        }
    }
}


/// The top-left corner of the live cells of `life` and its form.
fn corner_and_form(life: &Life) -> (r: (Pos, Vec<char>))
    requires
        life.wf(),
        life.width() + 1 <= max_dim(),
        life.height() + 1 <= max_dim(),
        form_ok(life.rows(), life.width(), life.height()),
    ensures
        r.0 == live_bounds(life.rows(), life.width(), life.height()).0,
        r.1@ == form_of(life.rows(), life.width(), life.height()),
{
    proof {
        life.lemma_wf();
    }
    let size = life.size();
    let (top_left, _bot_right) = life.calc_live_bounds();
    proof {
        lemma_grid_bounds_range(life.rows(), life.width(), life.height(), (life.width(), life.height(), 0, 0));
    }
    let form_s = if top_left.x == 0 && top_left.y == 0 {
        proof {
            assert(top_left == Pos { x: 0, y: 0 });
        }
        life.to_apgcode()
    } else {
        let area = Pos { x: size.x - top_left.x + 1, y: size.y - top_left.y + 1 };
        let trimmed_life = life.copy(top_left, area);
        trimmed_life.to_apgcode()
    };
    (top_left, crate::text::chars_of(form_s.as_str()))
}

/// What classification needs of a grid of `w` by `h` cells under `rule`: valid states, a
/// quiet rule, room for the border, and forms the search can write and read back.
pub open spec fn classify_pre(rule: LifeRule, rows: Rows, w: int, h: int) -> bool {
    &&& states_valid(rows)
    &&& quiet(rule)
    &&& w + 3 <= max_dim()
    &&& h + 3 <= max_dim()
    &&& (w + 2) * (h + 2) < 32767
    &&& apg_writable(rows, w, h)
    &&& classify_ok(rule, bordered(rows, w, h), w + 2, h + 2, apgcode_text(None, None, rows, w, h), 0)
}

/// `new` is what classifying `old` makes of it (see `classify_search`).
pub open spec fn classify_post(old: Pattern, new: Pattern) -> bool {
    let w = old.life.width();
    let h = old.life.height();
    let out = classify_search(
        old.life.spec_rule(),
        bordered(old.life.rows(), w, h),
        w + 2,
        h + 2,
        old.life.pops_view()[0],
        apgcode_text(None, None, old.life.rows(), w, h),
        Pos { x: 1, y: 1 },
        0,
        0,
    );
    &&& out.0 == 0 ==> new.life == old.life && new.metadata == old.metadata
    &&& out.0 != 0 ==> new.metadata.classification == out.1 && new.metadata.period_or_pop_or_lifespan == out.2
        && new.metadata.name is None && new.metadata.description is None
    &&& out.0 == 1 ==> new.life == old.life
    &&& out.0 == 2 ==> ({
        let secs = apg_secs(out.3);
        let cw = max_cols(secs);
        &&& new.life.wf()
        &&& new.life.kind() == LifeAlgoSelect::Basic
        &&& new.life.spec_rule().spec_lut() == crate::life::gol_lut()
        &&& new.life.spec_generation() == 0
        &&& new.life.spec_size() == (Pos { x: cw as i16, y: (secs.len() * 5) as i16 })
        &&& new.life.rows() == apg_rows(secs, cw as int)
        &&& new.life.counted()
    })
}

/// The longest search for a repeating form, in generations.
pub const MAX_PERIOD: u32 = 140;

impl Pattern {
    /// Run the pattern (with a border of one dead cell, by the cached algorithm) for up to
    /// 140 generations and classify it: a pattern that dies out is `Messless` (with its
    /// lifespan, the generations until it is gone); a pattern whose trimmed form repeats
    /// the best form seen is a still life (with its population), an oscillator (same corner) or a spaceship (moved
    /// corner), with the period, and its grid becomes that form. The best form is the
    /// shortest apgcode, then the first in order.
    #[verifier::rlimit(80)]
    #[verifier::spinoff_prover]
    pub fn classify(&mut self)
        requires
            old(self).life.wf(),
            classify_pre(old(self).life.spec_rule(), old(self).life.rows(), old(self).life.width(), old(self).life.height()),
        ensures
            classify_post(*old(self), *final(self)),
    {
        let size = self.life.size();
        let rule = *self.life.get_rule();
        proof {
            self.life.lemma_wf();
        }
        let ghost w = size.x as int;
        let ghost h = size.y as int;
        let ghost rows0 = self.life.rows();
        let big = Pos { x: size.x + 2, y: size.y + 2 };
        let ghost bw = big.x as int;
        let ghost bh = big.y as int;
        let ghost g0 = bordered(rows0, w, h);
        let mut new_life = Life::new_ex(big, LifeOptions { algo: LifeAlgoSelect::Cached, rule });
        proof {
            new_life.lemma_fresh_counted(LifeAlgoSelect::Cached, big, rule);
        }
        new_life.paste(&self.life, Pos { x: 1, y: 1 }, None);
        proof {
            lemma_bordered_states(rows0, w, h);
            assert(new_life.rows() == g0);
        }
        let initial_pop = self.life.get_pop(0);
        let first = self.life.to_apgcode();
        let mut min_form: Vec<char> = crate::text::chars_of(first.as_str());
        let ghost best0 = min_form@;
        let mut min_top_left = Pos { x: 1, y: 1 };
        let mut min_form_period: u32 = 0;
        let ghost out = classify_search(rule, g0, bw, bh, initial_pop, best0, Pos { x: 1, y: 1 }, 0, 0);
        let mut period: u32 = 0;
        while period < MAX_PERIOD
            invariant
                new_life.wf(),
                new_life.kind() == LifeAlgoSelect::Cached,
                new_life.spec_size() == big,
                new_life.spec_rule() == rule,
                bw == big.x,
                bh == big.y,
                bw * bh < 32767,
                bw + 1 <= max_dim(),
                bh + 1 <= max_dim(),
                0 <= bw,
                0 <= bh,
                new_life.counted(),
                period <= 140,
                min_form_period <= period,
                new_life.rows() == evolve(rule, g0, bw, bh, period as nat),
                states_valid(evolve(rule, g0, bw, bh, period as nat)),
                rows_wf(evolve(rule, g0, bw, bh, period as nat), bw, bh),
                classify_ok(rule, g0, bw, bh, min_form@, period as nat),
                out == classify_search(rule, g0, bw, bh, initial_pop, min_form@, min_top_left, min_form_period, period as nat),
                out == classify_search(rule, g0, bw, bh, initial_pop, best0, Pos { x: 1, y: 1 }, 0, 0),
                self.life == old(self).life,
                self.metadata == old(self).metadata,
                initial_pop == old(self).life.pops_view()[0],
                g0 == bordered(old(self).life.rows(), w, h),
                states_valid(g0),
                rows_wf(g0, bw, bh),
                best0 == apgcode_text(None, None, old(self).life.rows(), w, h),
                rule == old(self).life.spec_rule(),
                bw == w + 2,
                bh == h + 2,
                w == old(self).life.width(),
                h == old(self).life.height(),
            decreases 140 - period,
        {
            new_life.update();
            proof {
                lemma_evolve_states(rule, g0, bw, bh, (period + 1) as nat);
                crate::life::algo::consistency::lemma_pop_rows_le(new_life.rows(), bw, bh, 0);
                assert(new_life.pops_view()[0u8 as int] == pop_clamp(pop_rows(new_life.rows(), 0u8)));
            }
            if new_life.get_pop(0) == 0 {
                proof {
                    let g = evolve(rule, g0, bw, bh, (period + 1) as nat);
                    assert(g == new_life.rows());
                    assert(pop_rows(g, 0) == 0);
                    assert(out.0 == 1);
                    assert(out.1 == Some(Classification::Messless));
                    assert(out.2 == Some((period + 1) as u32));
                }
                self.metadata = PatternMetadata {
                    classification: Some(Classification::Messless),
                    period_or_pop_or_lifespan: Some(period + 1),
                    name: None,
                    description: None,
                };
                return;
            }
            let (top_left, new_form) = corner_and_form(&new_life);
            if chars_eq(&new_form, &min_form) {
                let text = crate::text::string_of(&min_form);
                let found = Life::from_apgcode(text.as_str(), LifeOptions::default());
                let number: u32 = if period == 0 {
                    let p = found.get_pop(0);
                    p as u32
                } else {
                    period - min_form_period + 1
                };
                let classification = if period == 0 {
                    Classification::StilLife
                } else if min_top_left == top_left {
                    Classification::Oscillator
                } else {
                    Classification::Spaceship
                };
                self.metadata = PatternMetadata {
                    classification: Some(classification),
                    period_or_pop_or_lifespan: Some(number),
                    name: None,
                    description: None,
                };
                self.life = found;
                return;
            }
            if new_form.len() < min_form.len() || (new_form.len() == min_form.len() && chars_lt(&new_form, &min_form)) {
                min_form = new_form;
                min_top_left = top_left;
                min_form_period = period + 1;
            }
            period = period + 1;
        }
    }
}

} // verus!
