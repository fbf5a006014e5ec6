use life_io::edit::do_edit_action;
use life_io::pattern::identify::{identify, CellGroup, CellGroupTracker};
use life_io::game::{
    cost, create_life, is_occupied, pattern_time, place_pattern, score_pops, GameEnd, GameOptions, GameState, PatternCount, PlaceError,
};
use life_io::life::rand::randomize_edges_with;
use life_io::life::{pos, Cell, Life, LifeAlgoSelect, LifeOptions, LifeRule};
use life_io::pattern::{Classification, Pattern, PatternMetadata};
use life_io::storage::Storage;
use life_io::ui::{Alignment, EditBar, HorizontalAlign, VerticalAlign};

#[test]
fn test_calc_top_left_life() {
    let mut life = Life::new(pos(4, 4));
    assert_eq!(life.calc_live_bounds(), (pos(4, 4), pos(0, 0)));
    life.insert(pos(1, 2), Cell::new(1, 0));
    assert_eq!(life.calc_live_bounds(), (pos(1, 2), pos(1, 2)));
    life.insert(pos(2, 1), Cell::new(1, 0));
    assert_eq!(life.calc_live_bounds(), (pos(1, 1), pos(2, 2)));
}

#[test]
fn still_life_block() {
    const BLOCK_TXT: &str = "OO\nOO";
    let mut pattern = Pattern::new_unclassified(Life::from_plaintext(BLOCK_TXT, LifeOptions::default()));

    pattern.classify();

    assert_eq!(pattern.metadata.classification, Some(Classification::StilLife));
    assert_eq!(pattern.metadata.period_or_pop_or_lifespan, Some(4));
}

#[test]
fn oscillator_blinker() {
    const BLINKER: &str = ".O.\n.O.\n.O.";
    let mut pattern = Pattern::new_unclassified(Life::from_plaintext(BLINKER, LifeOptions::default()));

    pattern.classify();

    assert_eq!(
        pattern.metadata,
        PatternMetadata {
            classification: Some(Classification::Oscillator),
            period_or_pop_or_lifespan: Some(2),
            ..Default::default()
        }
    );
}

#[test]
fn dying_pattern_is_messless() {
    let mut pattern = Pattern::new_unclassified(Life::from_plaintext("O.\n.O", LifeOptions::default()));
    pattern.classify();
    assert_eq!(pattern.metadata.classification, Some(Classification::Messless));
    // the lifespan: both cells are gone after one generation
    assert_eq!(pattern.metadata.period_or_pop_or_lifespan, Some(1));
}

#[test]
fn pattern_timers_earn_patterns() {
    assert_eq!(pattern_time(0), 10);
    assert_eq!(pattern_time(4), 250);
    let mut count = PatternCount { timer: 0, count: 0 };
    count.update(1);
    assert_eq!(count, PatternCount { timer: 14, count: 1 });
    count.update(1);
    assert_eq!(count, PatternCount { timer: 13, count: 1 });
}

#[test]
fn placing_patterns() {
    let mut board = Life::from_plaintext("......\n......\n....1.", LifeOptions::default());
    let block = Life::from_plaintext("OO\nOO", LifeOptions::default());
    assert_eq!(cost(&block), 4);

    let mut none_left = PatternCount { timer: 3, count: 0 };
    assert_eq!(place_pattern(&mut board, &block, pos(0, 0), &mut none_left, 0), Err(PlaceError::NotEnoughResources));

    let mut two = PatternCount { timer: 3, count: 2 };
    assert!(is_occupied(&mut board, pos(3, 1), pos(2, 2), 0));
    assert_eq!(place_pattern(&mut board, &block, pos(3, 1), &mut two, 0), Err(PlaceError::Occupied));
    assert_eq!(two.count, 2);

    assert_eq!(place_pattern(&mut board, &block, pos(0, 0), &mut two, 0), Ok(4));
    assert_eq!(two.count, 1);
    assert_eq!(board.to_plaintext(), "OO....\nOO....\n....1.");
    assert!(!is_occupied(&mut board, pos(0, 0), pos(2, 2), 0));
}

#[test]
fn storage_keeps_its_key() {
    let storage = Storage::new("save");
    assert_eq!(storage.get_key(), "save");
}

#[test]
fn ui_defaults_center() {
    let a = Alignment::default();
    assert!(matches!(a.hor_align, HorizontalAlign::Center));
    assert!(matches!(a.vert_align, VerticalAlign::Center));
    assert!(matches!(EditBar::default(), EditBar::Fill));
}

#[test]
fn test_cell_group_tracker() {
    let life = Life::from_plaintext(
        "\
OO..OO
OO..OO",
        LifeOptions::default(),
    );
    let tracker = CellGroupTracker::new(&life);

    assert_eq!(tracker.group_grid_map[1][1], 1);
    assert_eq!(tracker.group_grid_map[1][4], 2);
}

#[test]
fn test_identify_block() {
    let life = Life::from_plaintext(
        "\
OO..OO
OO..OO",
        LifeOptions::default(),
    );

    let patterns = identify(&life);

    assert_eq!(patterns[0].to_apgcode(), "xs4_33");
    assert_eq!(patterns[1].to_apgcode(), "xs4_33");
}

#[test]
fn near_groups_merge() {
    let life = Life::from_plaintext("O...O\n.....\n..O..", LifeOptions::default());
    let tracker = CellGroupTracker::new(&life);
    assert_eq!(tracker.group_grid_map[0][0], 1);
    assert_eq!(tracker.group_grid_map[0][4], 1);
    assert_eq!(tracker.group_grid_map[2][2], 1);
    assert_eq!(tracker.groups.len(), 1);
    assert_eq!(tracker.next_group_id, 3);
    let g = tracker.groups[&1];
    assert_eq!(g, CellGroup { top_left_pos: pos(0, 0), bot_right_pos: pos(4, 2) });
    assert!(g.within(pos(1, 1)));
    assert!(!g.within(pos(5, 1)));
}

#[test]
fn edit_actions() {
    let mut life = Life::new(pos(4, 3));
    let mut clipboard: Option<Life> = None;
    do_edit_action(&mut life, &mut clipboard, EditBar::Fill, &None, pos(2, 2), pos(0, 0));
    assert_eq!(life.to_plaintext(), "OO..\nOO..\n....");
    do_edit_action(&mut life, &mut clipboard, EditBar::Copy, &None, pos(0, 0), pos(0, 2));
    assert!(clipboard.is_none());
    do_edit_action(&mut life, &mut clipboard, EditBar::Copy, &None, pos(0, 0), pos(1, 2));
    assert_eq!(clipboard.as_ref().unwrap().to_plaintext(), "O\nO");
    do_edit_action(&mut life, &mut clipboard, EditBar::Paste, &None, pos(3, 1), pos(3, 1));
    assert_eq!(life.to_plaintext(), "OO..\nOO.O\n...O");
    do_edit_action(&mut life, &mut clipboard, EditBar::Clear, &None, pos(0, 0), pos(4, 1));
    assert_eq!(life.to_plaintext(), "....\nOO.O\n...O");
    assert_eq!(life.get_pop(0), 4);
}

#[test]
fn score_sorts_live_factions() {
    let life = Life::from_plaintext("OOO.1\n..2.2\n1....", LifeOptions::default());
    let (total, pops) = score_pops(&life);
    assert_eq!(total, 7);
    assert_eq!(pops, vec![(2, 1), (2, 2), (3, 0)]);
}

#[test]
fn game_ticks_and_ai_moves() {
    let mut state = GameState::new();
    let mut life = Life::from_plaintext(".......\n.......\n.......\n.......\n.......\n.......\n.......\n.......", LifeOptions::default());
    let block = Life::from_plaintext("OO\nOO", LifeOptions::default());
    let patterns = vec![block.clone(), block.clone(), block.clone(), block.clone(), block];
    for _ in 0..4 {
        assert_eq!(state.tick_with(&mut life, &patterns, 0, 0, 0), None);
    }
    assert_eq!(state.ai_update_ticks, 4);
    let end = state.tick_with(&mut life, &patterns, 7, 9, 7);
    assert_eq!(end, None);
    assert_eq!(state.ai_update_ticks, 0);
    // every count ticked once: a pattern earned for each kind, then the computer used kind 2
    assert_eq!(state.pattern_times[0][0], PatternCount { timer: 9, count: 1 });
    assert_eq!(state.pattern_times[1][2], PatternCount { timer: 49, count: 0 });
    // placed at x = 9 % 7 = 2, y = (7 % 8) / 4 = 1
    assert_eq!(life.to_plaintext(), ".......\n..11...\n..11...\n.......\n.......\n.......\n.......\n.......");
    assert_eq!(life.get_pop(1), 4);
}

#[test]
fn game_end_by_population() {
    let mut state = GameState::new();
    state.ai_update_ticks = 4;
    let mut life = Life::from_plaintext(
        "OOOOOOOOOOOOOOOOOOOOO1\n......................\n......................\n......................\n......................",
        LifeOptions::default(),
    );
    let dot = Life::from_plaintext("O", LifeOptions::default());
    let patterns = vec![dot.clone(), dot.clone(), dot.clone(), dot.clone(), dot];
    assert_eq!(state.tick_with(&mut life, &patterns, 0, 0, 4), Some(GameEnd::Won));
    assert_eq!(state.resources[1], 0);
}

#[test]
fn options_create_random_two_faction_grid() {
    let options = GameOptions { size: pos(16, 12), rule: LifeRule::gol(), algo: LifeAlgoSelect::Basic };
    let life = options.create();
    assert_eq!(life.size(), pos(16, 12));
    assert_eq!(life.get_generation(), 0);
    let default = GameOptions::default();
    assert_eq!(default.size, pos(256, 256));
}

#[test]
fn edges_from_values() {
    let mut life = Life::new(pos(2, 3));
    let values: Vec<u32> = vec![0, u32::MAX, u32::MAX, 5];
    randomize_edges_with(&mut life, &values);
    assert_eq!(life.to_plaintext(), "1.\n..\n.O");
}

#[test]
fn options_screen_life() {
    let life = create_life(1, 0);
    assert_eq!(life.size(), pos(64, 64));
    assert_eq!(*life.get_rule(), LifeRule::star_wars());
    let life = create_life(0, 1);
    assert_eq!(life.size(), pos(128, 128));
    assert_eq!(*life.get_rule(), LifeRule::gol());
}

#[test]
fn one_pattern_per_period() {
    let mut count = PatternCount { timer: 0, count: 3 };
    for _ in 0..pattern_time(0) {
        count.update(0);
    }
    assert_eq!(count, PatternCount { timer: 0, count: 4 });
}

#[test]
fn pattern_count_over_many_ticks() {
    let mut c = PatternCount { timer: 3, count: 0 };
    for _ in 0..25 {
        c.update(0);
    }
    // earned at ticks 4, 14 and 24; the timer then counts 9, 8
    assert_eq!((c.count, c.timer), (3, 8));
}
