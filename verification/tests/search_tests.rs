use life_io::search::{run_to_stabilization, run_to_stabilization_with};

#[test]
fn empty_soup_settles_at_once() {
    let values: Vec<u32> = vec![u32::MAX; 81];
    let result = run_to_stabilization_with(&values).unwrap();
    assert_eq!(result.age, 51);
    assert_eq!(result.period, 1);
    assert_eq!(result.life.get_pop(0), 0);
}

#[test]
fn tub_soup_is_a_still_life() {
    // the cells just above and left of the centre, turned four ways about it, make a tub
    let mut values: Vec<u32> = vec![u32::MAX; 81];
    values[71] = 0;
    values[79] = 0;
    let result = run_to_stabilization_with(&values).unwrap();
    assert_eq!(result.period, 1);
    assert_eq!(result.age, 51);
    assert_eq!(result.life.get_pop(0), 4);
}

#[test]
fn seeded_search_reports_a_period() {
    if let Some(result) = run_to_stabilization(3) {
        assert!(result.period >= 1);
        assert!(result.age >= 51);
    }
}
