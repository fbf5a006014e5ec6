use life_io::life::algo::basic::LifeBasic;
use life_io::life::algo::cached::LifeCached;
use life_io::life::algo::{faction_algos, working_algos};
use life_io::life::iter::LifeIter;
use life_io::life::{pos, Cell, Life, LifeAlgoSelect, LifeOptions, LifePops, LifeRule};

fn plain(text: &str) -> Life {
    Life::from_plaintext(text, LifeOptions::default())
}

#[test]
fn lib_life_test_basic() {
    let life = LifeIter::from_text(" * \n * \n * ");

    assert_eq!(life.get((0, 0)).unwrap().get_state(), 0);
    assert_eq!(life.get((1, 0)).unwrap().get_state(), 1);
    assert_eq!(life.get((0, 1)).unwrap().get_state(), 0);

    assert_eq!(life.neighbors(0, (0, 0)).0, 2);
    assert_eq!(life.neighbors(0, (1, 0)).0, 1);
    assert_eq!(life.neighbors(0, (0, 1)).0, 3);

    assert_eq!(life.update(), LifeIter::from_text("   \n***\n   "));
}

#[test]
fn test_flip_odd() {
    let life = plain(".O.\n...\n...");
    let life = life.flip_vert();
    assert_eq!(life.to_plaintext(), "...\n...\n.O.");
}

#[test]
fn test_flip_even() {
    let life = plain(".O.\n...\n...\n...");
    let life = life.flip_vert();
    assert_eq!(life.to_plaintext(), "...\n...\n...\n.O.");
}

#[test]
fn flip_twice_gives_back_the_grid() {
    let text = ".O..\nO.1.\n..BC";
    let life = plain(text);
    assert_eq!(life.flip_vert().flip_vert().to_plaintext(), text);
}

#[test]
fn life_test_basic_new() {
    let mut life = LifeBasic::new(pos(3, 3));

    life.insert(pos(1, 0), Cell::from(1));
    life.insert(pos(1, 1), Cell::from(1));
    life.insert(pos(1, 2), Cell::from(1));

    assert_eq!(life.get(pos(0, 0)).unwrap().get_state(), 0);
    assert_eq!(life.get(pos(1, 0)).unwrap().get_state(), 1);
    assert_eq!(life.get(pos(0, 1)).unwrap().get_state(), 0);

    assert_eq!(life.neighbors(0, pos(1, 1)), (2, 0));
    assert_eq!(life.neighbors(0, pos(2, 1)), (1, 0));
    assert_eq!(life.neighbors(0, pos(1, 2)), (3, 0));
}

#[test]
fn cached_test_cached() {
    let mut life = LifeCached::new(pos(3, 3));

    life.insert(pos(1, 1), Cell::from(1));

    assert_eq!(life.get(pos(0, 0)).unwrap().get_state(), 0);
    assert_eq!(life.get(pos(1, 1)).unwrap().get_state(), 1);

    assert_eq!(life.neighbors_cached((0, 0)), (1, 0));
    assert_eq!(life.neighbors_cached((1, 0)), (1, 0));
    assert_eq!(life.neighbors_cached((0, 1)), (1, 0));

    // the grid read from text, stepped as a blinker
    let mut life = LifeCached::from_text(" * \n * \n * ");

    assert_eq!(life.get(pos(0, 0)).unwrap().get_state(), 0);
    assert_eq!(life.get(pos(1, 0)).unwrap().get_state(), 1);
    assert_eq!(life.get(pos(0, 1)).unwrap().get_state(), 0);

    assert_eq!(life.neighbors_cached((0, 0)), (2, 0));
    assert_eq!(life.neighbors_cached((1, 0)), (1, 0));
    assert_eq!(life.neighbors_cached((0, 1)), (3, 0));

    assert_eq!(life.neighbors(0, (0, 0)), (2, 0));
    assert_eq!(life.neighbors(0, (1, 0)), (1, 0));
    assert_eq!(life.neighbors(0, (0, 1)), (3, 0));

    assert_eq!(life.recent_updates().as_slice(), &[pos(1, 0), pos(1, 1), pos(1, 2)]);

    let rule = LifeRule::gol();
    let mut pops = LifePops::new();
    life.update(&rule, &mut pops);
    assert!(same_cached(&life, &LifeCached::from_text("   \n***\n   ")));

    life.update(&rule, &mut pops);
    assert!(same_cached(&life, &LifeCached::from_text(" * \n * \n * ")));

    assert_eq!(life.neighbors_cached((0, 0)), (2, 0));
    assert_eq!(life.neighbors_cached((1, 0)), (1, 0));
    assert_eq!(life.neighbors_cached((0, 1)), (3, 0));

    life.update(&rule, &mut pops);
    assert!(same_cached(&life, &LifeCached::from_text("   \n***\n   ")));
}

#[test]
fn test_cached_faction() {
    let mut life = LifeCached::new(pos(3, 3));
    life.insert(pos(1, 0), Cell::new(1, 1));
    life.insert(pos(1, 1), Cell::new(1, 1));
    life.insert(pos(1, 2), Cell::new(1, 1));

    assert_eq!(life.get(pos(0, 0)).unwrap().get_state(), 0);
    assert_eq!(life.get(pos(1, 0)).unwrap().get_state(), 1);
    assert_eq!(life.get(pos(0, 1)).unwrap().get_state(), 0);

    let mut life_pops = LifePops::new();
    life.update(&LifeRule::gol(), &mut life_pops);
}

#[test]
fn cell_packs_state_and_faction() {
    let c = Cell::new(2, 5);
    assert_eq!(c.get_state(), 2);
    assert_eq!(c.get_faction(), 5);
    assert!(!c.is_alive());
    assert!(!c.is_dead());
    let mut d = Cell::new(1, 0);
    d.set_faction(3);
    assert_eq!(d, Cell::new(1, 3));
    d.set_state(0);
    assert!(d.is_dead());
}

#[test]
fn insert_keeps_population_counts() {
    let mut life = Life::new(pos(4, 4));
    life.insert(pos(1, 1), Cell::new(1, 0));
    life.insert(pos(2, 1), Cell::new(1, 2));
    life.insert(pos(3, 1), Cell::new(1, 2));
    assert_eq!(life.get_pop(0), 1);
    assert_eq!(life.get_pop(2), 2);
    life.insert(pos(3, 1), Cell::new(0, 0));
    assert_eq!(life.get_pop(2), 1);
    assert_eq!(life.get_cell(pos(2, 1)), Some(&Cell::new(1, 2)));
    assert_eq!(life.get_cell(pos(9, 1)), None);
}

#[test]
fn update_counts_generations() {
    let mut life = plain(".O.\n.O.\n.O.");
    assert_eq!(life.get_generation(), 0);
    life.update();
    life.update();
    assert_eq!(life.get_generation(), 2);
    assert_eq!(life.get_pop(0), 3);
}

const BLINKER_1: &str = "\
.O.
.O.
.O.";

const BLINKER_2: &str = "\
...
OOO
...";

/// The sparse algorithm has no grid behind it here; the others are run.
fn grid_algo(algo: &LifeAlgoSelect) -> bool {
    !matches!(algo, LifeAlgoSelect::Sprase)
}

fn with_algo(text: &str, algo: LifeAlgoSelect, rule: LifeRule) -> Life {
    Life::from_plaintext(text, LifeOptions { algo, rule })
}

#[test]
fn test_blinker() {
    for algo in working_algos().into_iter().filter(grid_algo) {
        let mut life = with_algo(BLINKER_1, algo, LifeRule::gol());
        assert_eq!(life.to_plaintext(), BLINKER_1, "algo: {algo:?}");

        life.update();
        assert_eq!(life.to_plaintext(), BLINKER_2, "algo: {algo:?}");
    }
}

#[test]
fn test_compare() {
    let gol = LifeRule::gol();
    let mut life_basic = Life::new_ex(pos(64, 64), LifeOptions { algo: LifeAlgoSelect::Basic, rule: gol });
    let mut life_cached = Life::new_ex(pos(64, 64), LifeOptions { algo: LifeAlgoSelect::Cached, rule: gol });

    life_basic.randomize(1234, false);
    life_cached.randomize(1234, false);

    for i in 0..50 {
        life_basic.update();
        life_cached.update();

        assert_eq!(life_basic.get_pop(0), life_cached.get_pop(0), "Failed at i: {i}");
    }
}

const FACTION_1: &str = "\
.O..1.
.O..1.
.O..1.";

const FACTION_2: &str = "\
......
OOO111
......";

const FACTION_3: &str = "\
.O..1.
.O..1.
.O..1.";

#[test]
fn test_faction() {
    for algo in faction_algos() {
        let mut life = with_algo(FACTION_1, algo, LifeRule::gol());
        assert_eq!(life.to_plaintext(), FACTION_1, "algo: {algo:?}");

        life.update();
        assert_eq!(life.to_plaintext(), FACTION_2, "algo: {algo:?}");

        life.update();
        assert_eq!(life.to_plaintext(), FACTION_3, "algo: {algo:?}");
    }
}

const STAR_WARS_SHIP_STATES: &[&str] = &[
    ".O....\n..O...\n..O...\n.O....",
    ".BO...\n..BO..\n..BO..\n.BO...",
    ".CBO..\n..CBO.\n..CBO.\n.CBO..",
    "..CBO.\n...CBO\n...CBO\n..CBO.",
];

#[test]
fn test_star_wars() {
    for algo in working_algos().into_iter().filter(grid_algo) {
        let mut life = with_algo(STAR_WARS_SHIP_STATES[0], algo, LifeRule::star_wars());
        assert_eq!(life.to_plaintext(), STAR_WARS_SHIP_STATES[0], "algo: {algo:?}");

        life.update();
        assert_eq!(life.to_plaintext(), STAR_WARS_SHIP_STATES[1], "algo: {algo:?}");

        life.update();
        assert_eq!(life.to_plaintext(), STAR_WARS_SHIP_STATES[2], "algo: {algo:?}");

        life.update();
        assert_eq!(life.to_plaintext(), STAR_WARS_SHIP_STATES[3], "algo: {algo:?}");
    }
}

#[test]
fn copy_cuts_out_an_area() {
    let life = plain("O..\n.1.\n..O");
    let part = life.copy(pos(1, 1), pos(2, 2));
    assert_eq!(part.to_plaintext(), "1.\n.O");
}

#[test]
fn paste_writes_with_faction() {
    let mut life = plain("....\n....\n....");
    let block = plain("OO\nOO");
    life.paste(&block, pos(1, 1), Some(2));
    assert_eq!(life.to_plaintext(), "....\n.22.\n.22.");
    assert_eq!(life.get_pop(2), 4);
}

#[test]
fn copy_after_paste_gives_the_pasted_cells() {
    let mut life = plain("O...\n.O..\n..O.\n...O");
    let shape = plain("O.\n1O");
    life.paste(&shape, pos(2, 1), Some(2));
    let back = life.copy(pos(2, 1), pos(2, 2));
    assert_eq!(back.to_plaintext(), "2.\n22");
}

#[test]
fn test_rotate() {
    let mut life = Life::new(pos(2, 2));
    life.insert(pos(1, 0), Cell::new(1, 1));

    let rotated = life.rotate();

    // rotate CW:
    // .O -> ..
    // .. -> .O
    assert_eq!(life.get_cell(pos(1, 0)), rotated.get_cell(pos(1, 1)));
}

#[test]
fn rotate_turns_a_wide_grid_clockwise() {
    let life = plain("OO.\n...");
    let rotated = life.rotate();
    assert_eq!(rotated.size(), pos(2, 3));
    assert_eq!(rotated.to_plaintext(), ".O\n.O\n..");
}

fn same_cached(a: &LifeCached, b: &LifeCached) -> bool {
    let size = a.size();
    if size != b.size() {
        return false;
    }
    for y in 0..size.y {
        for x in 0..size.x {
            if a.get(pos(x, y)) != b.get(pos(x, y))
                || a.neighbors_cached((x as usize, y as usize)) != b.neighbors_cached((x as usize, y as usize))
            {
                return false;
            }
        }
    }
    true
}

#[test]
fn populations_stay_counted_over_writes_and_steps() {
    let mut life = plain("....\n.OO.\n.OO.\n....");
    life.insert(pos(0, 0), Cell::new(1, 1));
    life.insert(pos(1, 1), Cell::new(0, 0));
    life.update();
    life.insert(pos(3, 3), Cell::new(1, 2));
    life.update();
    let text = life.to_plaintext();
    let count = |ch: char| text.chars().filter(|c| *c == ch).count() as i16;
    assert_eq!(life.get_pop(0), count('O') + count('B') + count('C'));
    assert_eq!(life.get_pop(1), count('1'));
    assert_eq!(life.get_pop(2), count('2'));
}
