use vstd::prelude::*;

use std::collections::VecDeque;

use crate::life::algo::dead_rows;
use crate::life::grid::{states_valid, Rows};
use crate::life::pos::{area_positions, Pos};
use crate::life::rand::{draw_seeded, seeded_draws, draws, rand_ok, rand_life_with, rand_writes, random_cell, RandSymmetry, images};
use crate::life::{apply_writes, cell_of, packed, write_step, zero_pops, Life, LifeAlgoSelect, LifeOptions, LifeRule};
use crate::pattern::classify::evolve;
use crate::pattern::identify::grid_hash;

verus! {

/// How many grid hashes a search remembers.
pub const HISTORY_SIZE: usize = 512;

/// The generation after which a search gives up.
pub const MAX_ITERS: usize = 2000;

/// A soup that settled: the generation before it first repeated, its period, and its grid.
pub struct LifeResult {
    pub age: usize,
    pub period: usize,
    pub life: Life,
}

/// The soup a search starts from: a 33 by 33 grid holding a random fill of the 17 by 17
/// area at (8, 8) with four-fold rotational symmetry, from the numbers `vals`.
pub open spec fn soup(vals: Seq<u32>) -> Rows {
    let area = Pos { x: 17, y: 17 };
    let s = RandSymmetry::C4_1;
    apply_writes(
        (dead_rows(33, 33), zero_pops()),
        rand_writes(s, Pos { x: 8, y: 8 }, area, vals, draws(s, area)),
    ).0
}

/// The hash of generation `k` of the soup under Conway's rule.
pub open spec fn gen_hash(g0: Rows, k: int) -> u64 {
    grid_hash(evolve(LifeRule::gol_spec(), g0, 33, 33, k as nat), 33)
}

/// The first `j` from `j` on, below `lim`, at which generation `k - 1 - j` hashes as
/// generation `k` does.
pub open spec fn hash_match(g0: Rows, k: int, j: int, lim: int) -> Option<int>
    decreases lim - j,
{
    if j >= lim {
        None
    } else if gen_hash(g0, k - 1 - j) == gen_hash(g0, k) {
        Some(j)
    } else {
        hash_match(g0, k, j + 1, lim)
    }
}

/// The search from generation `k` on: generation `k` is compared with the up to 512 latest
/// generations from 51 on; the first match at distance `j + 1` gives the age `k - 1` and
/// the period `j + 1`; past generation 2000 the search gives up.
pub open spec fn stabilize(g0: Rows, k: int) -> Option<(int, int)>
    decreases 2001 - k,
{
    if k < 51 || k > 2001 {
        None
    } else {
        let lim = if k - 51 < 512 {
            k - 51
        } else {
            512
        };
        match hash_match(g0, k, 0, lim) {
            Some(j) => Some((k - 1, j + 1)),
            None => if k > 2000 {
                None
            } else {
                stabilize(g0, k + 1)
            },
        }
    }
}

/// `r` is what the search makes of the soup of `vals`.
pub open spec fn settled(vals: Seq<u32>, r: Option<LifeResult>) -> bool {
    match r {
        Some(res) => stabilize(soup(vals), 51) == Some((res.age as int, res.period as int)) && res.life.rows() == evolve(
            LifeRule::gol_spec(),
            soup(vals),
            33,
            33,
            (res.age + 1) as nat,
        ),
        None => stabilize(soup(vals), 51) is None,
    }
}

proof fn lemma_stabilize_step(g0: Rows, k: int, n: int)
    requires
        51 <= k <= 2001,
        n == (if k - 51 < 512 {
            k - 51
        } else {
            512
        }),
    ensures
        stabilize(g0, k) == (match hash_match(g0, k, 0, n) {
            Some(j) => Some((k - 1, j + 1)),
            None => if k > 2000 {
                None
            } else {
                stabilize(g0, k + 1)
            },
        }),
{
}

/// How many earlier generations generation `k` is compared with: those from 51 on, at
/// most 512.
pub open spec fn look_back(k: int) -> int {
    if k - 51 < 512 {
        k - 51
    } else {
        512
    }
}

proof fn lemma_hash_match(g0: Rows, k: int, j: int, lim: int)
    ensures
        match hash_match(g0, k, j, lim) {
            Some(r) => j <= r < lim && gen_hash(g0, k - 1 - r) == gen_hash(g0, k) && forall|i: int|
                j <= i < r ==> #[trigger] gen_hash(g0, k - 1 - i) != gen_hash(g0, k),
            None => forall|i: int| j <= i < lim ==> #[trigger] gen_hash(g0, k - 1 - i) != gen_hash(g0, k),
        },
    decreases lim - j,
{
    if j < lim {
        lemma_hash_match(g0, k, j + 1, lim);
    }
}

/// The search reports the first generation that repeats one of the generations it looks
/// back on, and as its period the distance to the nearest such generation: with
/// `k = age + 1`, generation `k - period` hashes as generation `k` does, no generation
/// nearer to `k` does, and no generation searched before `k` matched any generation it
/// looked back on. A period-2 oscillator is reported with period 2, not 1.
pub proof fn law_stabilize_nearest_repeat(g0: Rows, k0: int)
    requires
        51 <= k0,
    ensures
        match stabilize(g0, k0) {
            Some((age, period)) => {
                let k = age + 1;
                &&& k0 <= k <= 2001
                &&& 1 <= period <= look_back(k)
                &&& gen_hash(g0, k - period) == gen_hash(g0, k)
                &&& forall|p: int| 1 <= p < period ==> #[trigger] gen_hash(g0, k - p) != gen_hash(g0, k)
                &&& forall|m: int, p: int|
                    k0 <= m < k && 1 <= p <= look_back(m) ==> #[trigger] gen_hash(g0, m - p) != gen_hash(g0, m)
            },
            None => true,
        },
    decreases 2001 - k0,
{
    if k0 <= 2001 {
        let n = look_back(k0);
        lemma_stabilize_step(g0, k0, n);
        lemma_hash_match(g0, k0, 0, n);
        match hash_match(g0, k0, 0, n) {
            Some(j) => {
                assert forall|p: int| 1 <= p < j + 1 implies #[trigger] gen_hash(g0, k0 - p) != gen_hash(g0, k0) by {
                    assert(gen_hash(g0, k0 - 1 - (p - 1)) != gen_hash(g0, k0));
                }
            },
            None => {
                if k0 <= 2000 {
                    law_stabilize_nearest_repeat(g0, k0 + 1);
                    match stabilize(g0, k0 + 1) {
                        Some((age, period)) => {
                            let k = age + 1;
                            assert forall|m: int, p: int|
                                k0 <= m < k && 1 <= p <= look_back(m) implies #[trigger] gen_hash(g0, m - p) != gen_hash(g0, m) by {
                                if m == k0 {
                                    assert(gen_hash(g0, k0 - 1 - (p - 1)) != gen_hash(g0, k0));
                                }
                            }
                        },
                        None => {},
                    }
                }
            },
        }
    }
}

proof fn lemma_rand_writes_states(s: RandSymmetry, pos: Pos, area: Pos, vals: Seq<u32>, k: int)
    ensures
        forall|i: int|
            0 <= i < rand_writes(s, pos, area, vals, k).len() ==> (#[trigger] rand_writes(s, pos, area, vals, k)[i]).1.spec_state()
                < 4,
    decreases k,
{
    if k > 0 {
        lemma_rand_writes_states(s, pos, area, vals, k - 1);
        let a = rand_writes(s, pos, area, vals, k - 1);
        let p = area_positions(pos, crate::life::rand::sym_area(s, area))[k - 1];
        let c = random_cell(vals[k - 1]);
        let b = images(s, p, pos, area).map_values(|q: Pos| (q, c));
        crate::life::lemma_packed(1, 0);
        crate::life::lemma_dead_cell();
        assert forall|i: int| 0 <= i < (a + b).len() implies (#[trigger] (a + b)[i]).1.spec_state() < 4 by {
            if i >= a.len() {
                assert((a + b)[i] == b[i - a.len()]);
            }
        }
    }
}

proof fn lemma_apply_states(st: (Rows, Seq<i16>), ws: Seq<(Pos, crate::life::Cell)>)
    requires
        states_valid(st.0),
        forall|i: int| 0 <= i < ws.len() ==> (#[trigger] ws[i]).1.spec_state() < 4,
    ensures
        states_valid(apply_writes(st, ws).0),
    decreases ws.len(),
{
    if ws.len() > 0 {
        assert forall|i: int| 0 <= i < ws.drop_last().len() implies (#[trigger] ws.drop_last()[i]).1.spec_state() < 4 by {
            assert(ws.drop_last()[i] == ws[i]);
        }
        lemma_apply_states(st, ws.drop_last());
        let r = apply_writes(st, ws.drop_last()).0;
        let w = ws.last();
        assert(w == ws[ws.len() - 1]);
        let r2 = write_step(apply_writes(st, ws.drop_last()), w).0;
        assert forall|y: int, x: int| 0 <= y < r2.len() && 0 <= x < r2[y].len() implies (#[trigger] r2[y][x]).spec_state() < 4 by {
            if 0 <= w.0.y < r.len() && 0 <= w.0.x < r[w.0.y as int].len() && y == w.0.y && x == w.0.x {
            } else {
                assert(r2[y][x] == r[y][x]);
            }
        }
    }
}

/// The fill of the soup fits a fresh 33 by 33 cached grid.
proof fn lemma_soup_fill_ok(life: Life)
    requires
        life.kind() == LifeAlgoSelect::Cached,
    ensures
        rand_ok(life, RandSymmetry::C4_1, Pos { x: 8, y: 8 }, Pos { x: 17, y: 17 }),
{
    let pos = Pos { x: 8, y: 8 };
    let area = Pos { x: 17, y: 17 };
    let sa = crate::life::rand::sym_area(RandSymmetry::C4_1, area);
    assert(sa == Pos { x: 9, y: 9 });
    let ps = area_positions(pos, sa);
    assert forall|k: int| 0 <= k < ps.len() implies crate::life::rand::images_fit(RandSymmetry::C4_1, #[trigger] ps[k], pos, area) by {
        assert(0 <= k % 9 < 9);
        assert(0 <= k / 9 < 9);
        assert(ps[k].x == 8 + k % 9);
        assert(ps[k].y == 8 + k / 9);
    }
}

/// Settle a soup from the numbers `values` (see `soup`): step it under Conway's rule by
/// the cached algorithm, and from generation 51 on compare each generation's hash with
/// those of the up to 512 latest generations (see `stabilize`).
#[verifier::rlimit(40)]
#[verifier::spinoff_prover]
pub fn run_to_stabilization_with(values: &Vec<u32>) -> (r: Option<LifeResult>)
    requires
        values@.len() == draws(RandSymmetry::C4_1, Pos { x: 17, y: 17 }),
    ensures
        settled(values@, r),
{
    let ghost g0 = soup(values@);
    let rule = LifeRule::gol();
    proof {
        LifeRule::lemma_gol_quiet();
    }
    let mut life = Life::new_ex(Pos { x: 33, y: 33 }, LifeOptions { algo: LifeAlgoSelect::Cached, rule });
    proof {
        lemma_soup_fill_ok(life);
    }
    rand_life_with(&mut life, Pos { x: 8, y: 8 }, Pos { x: 17, y: 17 }, values, Some(RandSymmetry::C4_1));
    proof {
        assert(life.rows() == g0);
        crate::life::lemma_dead_cell();
        assert(states_valid(dead_rows(33, 33)));
        lemma_rand_writes_states(
            RandSymmetry::C4_1,
            Pos { x: 8, y: 8 },
            Pos { x: 17, y: 17 },
            values@,
            draws(RandSymmetry::C4_1, Pos { x: 17, y: 17 }),
        );
        lemma_apply_states(
            (dead_rows(33, 33), zero_pops()),
            rand_writes(
                RandSymmetry::C4_1,
                Pos { x: 8, y: 8 },
                Pos { x: 17, y: 17 },
                values@,
                draws(RandSymmetry::C4_1, Pos { x: 17, y: 17 }),
            ),
        );
    }
    let mut life_history: VecDeque<u64> = VecDeque::new();
    let mut i: usize = 0;
    while i < 50
        invariant
            i <= 50,
            life.wf(),
            life.kind() == LifeAlgoSelect::Cached,
            life.spec_size() == (Pos { x: 33, y: 33 }),
            life.spec_rule() == LifeRule::gol_spec(),
            states_valid(g0),
            life.rows() == evolve(LifeRule::gol_spec(), g0, 33, 33, i as nat),
            states_valid(life.rows()),
        decreases 50 - i,
    {
        life.update();
        i = i + 1;
        proof {
            crate::life::grid::lemma_next_states_valid(LifeRule::gol_spec(), evolve(LifeRule::gol_spec(), g0, 33, 33, (i - 1) as nat), 33, 33);
        }
    }
    loop
        invariant
            g0 == soup(values@),
            50 <= i <= 2000,
            life.wf(),
            life.kind() == LifeAlgoSelect::Cached,
            life.spec_size() == (Pos { x: 33, y: 33 }),
            life.spec_rule() == LifeRule::gol_spec(),
            life.rows() == evolve(LifeRule::gol_spec(), g0, 33, 33, i as nat),
            states_valid(life.rows()),
            life_history@.len() == (if i - 50 < 512 { i - 50 } else { 512 }),
            forall|j: int| 0 <= j < life_history@.len() ==> #[trigger] life_history@[j] == gen_hash(g0, i - j),
            stabilize(g0, i + 1) == stabilize(g0, 51),
        decreases 2000 - i,
    {
        life.update();
        let hash = life.hash();
        proof {
            crate::life::grid::lemma_next_states_valid(LifeRule::gol_spec(), evolve(LifeRule::gol_spec(), g0, 33, 33, i as nat), 33, 33);
            assert(hash == gen_hash(g0, i + 1));
        }
        let n = life_history.len();
        let mut j: usize = 0;
        let mut found: Option<usize> = None;
        while j < n
            invariant
                j <= n,
                n == life_history@.len(),
                found is None ==> hash_match(g0, i + 1, j as int, n as int) == hash_match(g0, i + 1, 0, n as int),
                found is Some ==> j == n,
                found matches Some(f) ==> hash_match(g0, i + 1, 0, n as int) == Some(f as int) && f < n,
                forall|k: int| 0 <= k < life_history@.len() ==> #[trigger] life_history@[k] == gen_hash(g0, i - k),
                hash == gen_hash(g0, i + 1),
            decreases n - j,
        {
            if life_history[j] == hash {
                found = Some(j);
                j = n;
            } else {
                j = j + 1;
            }
        }
        proof {
            lemma_stabilize_step(g0, i + 1, n as int);
        }
        if let Some(index) = found {
            return Some(LifeResult { age: i, period: index + 1, life });
        }
        life_history.push_front(hash);
        if life_history.len() > HISTORY_SIZE {
            life_history.pop_back();
        }
        i = i + 1;
        if i > MAX_ITERS {
            return None;
        }
    }
}

/// Settle the soup of the numbers that a generator seeded with `seed` gives (see
/// `run_to_stabilization_with`).
pub fn run_to_stabilization(seed: u64) -> (r: Option<LifeResult>)
    ensures
        settled(seeded_draws(seed, 81), r),
{
    let values = draw_seeded(seed, 81);
    assert(crate::life::rand::sym_area(RandSymmetry::C4_1, Pos { x: 17, y: 17 }) == (Pos { x: 9, y: 9 }));
    assert(draws(RandSymmetry::C4_1, Pos { x: 17, y: 17 }) == 81);
    run_to_stabilization_with(&values)
}

} // verus!
