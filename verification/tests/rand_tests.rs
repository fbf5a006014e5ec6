use life_io::life::rand::{cell_from_random, rand_life, rand_life_with, RandSymmetry};
use life_io::life::{pos, Cell, Life};

#[test]
fn test_rand() {
    let mut life = Life::default();
    rand_life(&mut life, pos(2, 2), pos(4, 4), 1234, None);

    assert_eq!(
        life.to_plaintext(),
        "\
........
........
...OO...
..O.....
....O...
..OOO...
........
........"
    );
}

#[test]
fn test_rand_d2_1() {
    let mut life = Life::default();
    rand_life(&mut life, pos(2, 2), pos(5, 5), 1234, Some(RandSymmetry::D2_1));

    assert_eq!(
        life.to_plaintext(),
        "\
........
........
...OO.O.
........
..O.OOO.
........
...OO.O.
........"
    );
}

#[test]
fn test_rand_d2_2() {
    let mut life = Life::default();
    rand_life(&mut life, pos(2, 2), pos(4, 4), 1234, Some(RandSymmetry::D2_2));

    assert_eq!(
        life.to_plaintext(),
        "\
........
........
...OO...
..O.....
..O.....
...OO...
........
........"
    );
}

#[test]
fn test_rand_c2_1() {
    let mut life = Life::default();
    rand_life(&mut life, pos(2, 2), pos(5, 5), 1234, Some(RandSymmetry::C2_1));

    assert_eq!(
        life.to_plaintext(),
        "\
........
........
...O....
..O.....
........
......O.
.....O..
........"
    );
}

#[test]
fn test_rand_c4_1() {
    let mut life = Life::default();
    rand_life(&mut life, pos(2, 2), pos(5, 5), 1234, Some(RandSymmetry::C4_1));

    assert_eq!(
        life.to_plaintext(),
        "\
........
........
...O....
...O.OO.
........
..OO.O..
.....O..
........"
    );
}

#[test]
fn random_values_become_cells() {
    assert_eq!(cell_from_random(0), Cell::new(1, 0));
    assert_eq!(cell_from_random(u32::MAX / 3 - 1), Cell::new(1, 0));
    assert_eq!(cell_from_random(u32::MAX / 3), Cell::new(0, 0));
    assert_eq!(cell_from_random(u32::MAX), Cell::new(0, 0));
}

#[test]
fn given_values_fill_the_area() {
    let mut life = Life::default();
    let values: Vec<u32> = vec![1, u32::MAX, u32::MAX, 1];
    rand_life_with(&mut life, pos(0, 0), pos(2, 2), &values, None);
    assert_eq!(&life.to_plaintext()[..20], "O.......\n.O......\n..");
    assert_eq!(life.get_pop(0), 2);
}

#[test]
fn randomize_with_factions_uses_values() {
    let mut life = Life::new(pos(1, 4));
    let values: Vec<u32> = vec![1, 1, 1, 1];
    life.randomize_with(&values, true);
    assert_eq!(life.get_cell(pos(0, 0)), Some(&Cell::new(1, 1)));
    assert_eq!(life.get_cell(pos(0, 1)).unwrap().get_state(), 0);
    assert_eq!(life.get_cell(pos(0, 3)).unwrap().get_state(), 0);
    assert_eq!(life.get_pop(1), 1);
}

#[test]
fn mirror_fills_are_symmetric_within_the_area() {
    for (sym, h) in [(RandSymmetry::D2_2, 4i16), (RandSymmetry::D2_1, 5i16)] {
        for top in 0..3i16 {
            let mut life = Life::default();
            rand_life(&mut life, pos(1, top), pos(6, h), 99, Some(sym));
            for x in 1..7i16 {
                for k in 0..h {
                    assert_eq!(
                        life.get_cell(pos(x, top + k)),
                        life.get_cell(pos(x, top + h - 1 - k)),
                        "top {top}, x {x}, k {k}"
                    );
                }
            }
        }
    }
}
