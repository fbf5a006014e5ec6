use life_io::life::{pos, Cell, LifeRule, Pos};

#[test]
fn test_rule_from_str() {
    assert_eq!(LifeRule::from_str("B3/S23"), LifeRule::gol());
    assert_eq!(LifeRule::from_str("B2/S345/4"), LifeRule::star_wars());
}

#[test]
fn test_rule_to_str() {
    assert_eq!(LifeRule::gol().to_str(), "B3/S23");
    assert_eq!(LifeRule::star_wars().to_str(), "B2/S345/4");
}

#[test]
fn test_rule_alt_fmt() {
    assert_eq!(LifeRule::from_str("23/3"), LifeRule::gol());
    assert_eq!(LifeRule::from_str("345/2/4"), LifeRule::star_wars());
}

#[test]
fn rule_text_round_trip() {
    for text in ["B3/S23", "B2/S345/4", "B23/S36", "B3/S12345678"] {
        assert_eq!(LifeRule::from_str(text).to_str(), text);
    }
}

#[test]
fn test_rule_life() {
    let rule = LifeRule::gol();

    assert_eq!(rule.update(0, (2, 0)), Cell::new(0, 0));
    assert_eq!(rule.update(0, (3, 0)), Cell::new(1, 0));
    assert_eq!(rule.update(0, (4, 0)), Cell::new(0, 0));

    assert_eq!(rule.update(1, (1, 0)), Cell::new(0, 0));
    assert_eq!(rule.update(1, (2, 0)), Cell::new(1, 0));
    assert_eq!(rule.update(1, (3, 0)), Cell::new(1, 0));
    assert_eq!(rule.update(1, (4, 0)), Cell::new(0, 0));
}

#[test]
fn test_rule_sw() {
    let rule = LifeRule::star_wars();

    assert_eq!(rule.update(0, (1, 0)), Cell::new(0, 0));
    assert_eq!(rule.update(0, (2, 0)), Cell::new(1, 0));
    assert_eq!(rule.update(0, (3, 0)), Cell::new(0, 0));
    assert_eq!(rule.update(0, (4, 0)), Cell::new(0, 0));

    assert_eq!(rule.update(1, (3, 0)), Cell::new(1, 0));
    assert_eq!(rule.update(1, (4, 0)), Cell::new(1, 0));
    assert_eq!(rule.update(1, (5, 0)), Cell::new(1, 0));

    assert_eq!(rule.update(1, (1, 0)), Cell::new(2, 0));
    assert_eq!(rule.update(1, (2, 0)), Cell::new(2, 0));
    assert_eq!(rule.update(1, (6, 0)), Cell::new(2, 0));

    assert_eq!(rule.update(2, (1, 0)), Cell::new(3, 0));
    assert_eq!(rule.update(2, (3, 0)), Cell::new(3, 0));
    assert_eq!(rule.update(2, (6, 0)), Cell::new(3, 0));

    assert_eq!(rule.update(3, (1, 0)), Cell::new(0, 0));
    assert_eq!(rule.update(3, (3, 0)), Cell::new(0, 0));
    assert_eq!(rule.update(3, (6, 0)), Cell::new(0, 0));
}

#[test]
fn rule_update_keeps_faction() {
    assert_eq!(LifeRule::gol().update(0, (3, 5)), Cell::new(1, 5));
    assert!(!LifeRule::gol().is_generations());
    assert!(LifeRule::star_wars().is_generations());
}

#[test]
fn test_reflect() {
    assert_eq!(Pos::new(1, 2).reflect_y_odd(3), pos(1, 4));
    assert_eq!(Pos::new(1, 1).reflect_y_odd(3), pos(1, 5));
    assert_eq!(Pos::new(1, 3).reflect_y_odd(3), pos(1, 3));

    assert_eq!(Pos::new(1, 2).reflect_y_even(2), pos(1, 3));
    assert_eq!(Pos::new(1, 1).reflect_y_even(2), pos(1, 4));
}

#[test]
fn pos_test_rotate() {
    assert_eq!(Pos::new(1, 2).rotate_90_cw_odd(pos(3, 3)), pos(4, 1));
    assert_eq!(Pos::new(1, 2).rotate_90_ccw(pos(3, 3)), pos(2, 5));
    assert_eq!(Pos::new(1, 2).rotate_180(pos(3, 3)), pos(5, 4));
}

#[test]
fn four_quarter_turns_give_back_the_position() {
    let p = Pos::new(-3, 7);
    let c = pos(2, 1);
    let r = p.rotate_90_cw_odd(c).rotate_90_cw_odd(c).rotate_90_cw_odd(c).rotate_90_cw_odd(c);
    assert_eq!(r, p);
    assert_eq!(p.rotate_90_ccw(c).rotate_90_cw_odd(c), p);
}

#[test]
fn pos_arithmetic() {
    assert_eq!(pos(30, 0).add(pos(5, 1)), pos(35, 1));
    assert_eq!(pos(30, 0).sub(pos(5, 1)), pos(25, -1));
    assert_eq!(pos(i16::MIN, 4).saturating_sub(pos(1, 1)), pos(i16::MIN, 3));
    assert_eq!(pos(7, -7).div(2), pos(3, -3));
    assert_eq!(pos(-9, 9).div(-4), pos(2, -2));
    assert_eq!(pos(1, 9).min(pos(4, 2)), pos(1, 2));
    assert_eq!(pos(1, 9).max(pos(4, 2)), pos(4, 9));
    let cells = pos(1, 1).iter(pos(2, 2));
    assert_eq!(cells, vec![pos(1, 1), pos(2, 1), pos(1, 2), pos(2, 2)]);
}

#[test]
fn rule_counts_decide_birth_and_survival() {
    let rule = LifeRule::from_str("B36/S23");
    for n in 0..=8u8 {
        let born = rule.update(0, (n, 0)).get_state();
        let kept = rule.update(1, (n, 0)).get_state();
        assert_eq!(born, if n == 3 || n == 6 { 1 } else { 0 }, "birth on {n}");
        assert_eq!(kept, if n == 2 || n == 3 { 1 } else { 0 }, "survival on {n}");
    }
}
