use life_io::life::file_format::apgcode::{apgcode_from_pattern, new_pattern_from_apgcode};
use life_io::life::file_format::plaintext::plaintext_readable;
use life_io::life::file_format::rle::rle_readable;
use life_io::life::{pos, Cell, Life, LifeOptions, LifeRule};
use life_io::pattern::{Classification, Pattern, PatternMetadata};

pub const GLIDER_TXT: &str = "\
.O.
..O
OOO";

#[test]
fn test_txt_glider() {
    let life = Life::from_plaintext(GLIDER_TXT, LifeOptions::default());
    assert_eq!(life.to_plaintext(), GLIDER_TXT);
}

pub const STAR_WARS_TXT: &str = "\
CBO";

#[test]
fn test_txt_star_wars() {
    let life = Life::from_plaintext(STAR_WARS_TXT, LifeOptions::default());
    assert_eq!(life.to_plaintext(), STAR_WARS_TXT);
}

pub const FACTION_TXT: &str = "\
O12";

#[test]
fn test_txt_faction() {
    let life = Life::from_plaintext(FACTION_TXT, LifeOptions::default());
    assert_eq!(life.to_plaintext(), FACTION_TXT);
}

const COMMENTS_TXT: &str = "\
!Name: TestName
!Some info about it
O12";

#[test]
fn comments() {
    let pattern = Pattern::from_plaintext(COMMENTS_TXT, LifeOptions::default());

    assert_eq!(pattern.to_plaintext(), COMMENTS_TXT);
}

#[test]
fn plaintext_pads_short_rows_and_reads_metadata() {
    let pattern = Pattern::from_plaintext("!Name: Pad\n!about\nO\n.O.\n", LifeOptions::default());
    assert_eq!(pattern.metadata.name.as_deref(), Some("Pad"));
    assert_eq!(pattern.metadata.description.as_deref(), Some("about"));
    assert_eq!(pattern.life.size(), pos(3, 2));
    assert_eq!(pattern.life.to_plaintext(), "O..\n.O.");
}

const GLIDER_RLE: &str = "\
#C This is a glider.
x = 3, y = 3, rule = B3/S23
bo$2bo$3o!";

#[test]
fn test_rle_glider() {
    let pattern = Pattern::from_rle(GLIDER_RLE);

    assert_eq!(pattern.life.size(), pos(3, 3));
    assert_eq!(pattern.to_rle(), GLIDER_RLE);
}

const GOSPER_RLE: &str = "\
#N Gosper glider gun
x = 36, y = 9, rule = B3/S23
24bo$22bobo$12b2o6b2o12b2o$11bo3bo4b2o12b2o$2o8bo5bo3b2o$2o8bo3bob2o
4bobo$10bo5bo7bo$11bo3bo$12b2o!";

#[test]
fn test_rle_gosper() {
    let pattern = Pattern::from_rle(GOSPER_RLE);
    assert_eq!(*pattern.life.get_rule(), LifeRule::gol());
    assert_eq!(pattern.life.size(), pos(36, 9));
    assert_eq!(pattern.life.get_cell(pos(24, 0)).unwrap(), &Cell::new(1, 0));
    assert_eq!(pattern.to_rle(), GOSPER_RLE);
}

const STAR_WARS_RLE: &str = "\
x = 43, y = 48, rule = B2/S345/4
2.ABC$2.A2.A$.6A.A$2.A3.2A.B$A.A4.2A.C$B2A5.2A$C.A5.A$2.A5.A4.CBA$.
10A3.A25.CB$2.A2.A2.A.B2.3A23.2A.A$.ABC3.ABC4.A25.3A$13.ABC23.BA.B$
39.A.C$6.A4.A6.A$5.15A$6.A2.A2.A2.A2.A9$15.C$14.A.B$13.4A$12.A.A$12.B
.A$12.C3A$14.A$14.A.C$4.ABC6.3AB$2.A2.A8.A.A$.6A5.A.A$2.A3.2A4.B3A$2.
A4.2A3.C.A24.CBA$.2A5.3A3.A25.A$A.A5.A.B2.3AC22.3A$B.A5.A.C3.A.B21.B
2A.A$C9A4.A.A23.CB$2.A2.A2.A3.4A$4.ABC5.B.A$11.2AC$11.AB$6.A4.A6.A$5.
15A$6.A2.A2.A2.A2.A!";

#[test]
fn test_rle_star_wars() {
    let pattern = Pattern::from_rle(STAR_WARS_RLE);
    assert_eq!(*pattern.life.get_rule(), LifeRule::star_wars());
    assert_eq!(pattern.to_rle(), STAR_WARS_RLE);
}

const HEAVYWEIGHT_SPACESHIP_TXT: &str = "!Name: 
.OO....
OO.OOOO
.OOOOOO
..OOOO.
.......";

#[test]
fn test_apgcode_spaceship() {
    const HEAVYWEIGHT_SPACESHIP_APG: &str = "xq4_27deee6";

    let mut pattern: Pattern = new_pattern_from_apgcode(HEAVYWEIGHT_SPACESHIP_APG, None);
    assert_eq!(pattern.metadata.classification, Some(Classification::Spaceship));
    assert_eq!(apgcode_from_pattern(&pattern).as_str(), HEAVYWEIGHT_SPACESHIP_APG);

    pattern.metadata.name = Some(String::new());
    pattern.metadata.description = None;
    assert_eq!(pattern.to_plaintext(), HEAVYWEIGHT_SPACESHIP_TXT);
}

#[test]
fn test_apgcode_still_life() {
    const STIL_LIFE_APG: &str = "xs31_0ca178b96z69d1d96";
    let pattern: Pattern = new_pattern_from_apgcode(STIL_LIFE_APG, None);
    assert_eq!(apgcode_from_pattern(&pattern).as_str(), STIL_LIFE_APG);
}

#[test]
fn test_apgcode_queen_bee_shuttle() {
    const QUEEN_BEE_SHUTTLE: &str = "xp30_w33z8kqrqk8zzzx33";

    let pattern: Pattern = new_pattern_from_apgcode(QUEEN_BEE_SHUTTLE, None);
    assert_eq!(apgcode_from_pattern(&pattern).as_str(), QUEEN_BEE_SHUTTLE);
}

#[test]
fn test_apgcode_quadpole_tie_ship() {
    const QUADPOLE_TIE_SHIP: &str = "xp2_31a08zy0123cko";

    let pattern: Pattern = new_pattern_from_apgcode(QUADPOLE_TIE_SHIP, None);
    assert_eq!(apgcode_from_pattern(&pattern).as_str(), QUADPOLE_TIE_SHIP);
}

#[test]
fn apgcode_period_is_read() {
    let pattern = new_pattern_from_apgcode("xp2_7", None);
    assert_eq!(pattern.metadata.classification, Some(Classification::Oscillator));
    assert_eq!(pattern.metadata.period_or_pop_or_lifespan, Some(2));
    assert_eq!(pattern.life.to_plaintext(), "O\nO\nO\n.\n.");
}

#[test]
fn life_apgcode_round_trip() {
    let life = Life::from_plaintext("OO\nOO", LifeOptions::default());
    let code = life.to_apgcode();
    assert_eq!(code, "_33");
}

#[test]
fn apgcode_reads_back_the_live_cells() {
    let life = Life::from_plaintext(".O..\nOO..\n....", LifeOptions::default());
    let code = life.to_apgcode();
    assert_eq!(code, "_23");
    let back = Life::from_apgcode(&code, LifeOptions::default());
    assert_eq!(back.to_plaintext(), ".O\nOO\n..\n..\n..");
}

#[test]
fn long_empty_runs_read_back() {
    // fourteen empty columns are written `ya`, the base-36 digit `a` standing for 10 + 4
    let life = Life::from_plaintext("O..............O", LifeOptions::default());
    let code = life.to_apgcode();
    assert_eq!(code, "_1ya1");
    let back = Life::from_apgcode(&code, LifeOptions::default());
    assert_eq!(back.size(), pos(16, 5));
    assert_eq!(back.to_plaintext().lines().next().unwrap(), "O..............O");
}

#[test]
fn plaintext_round_trip_keeps_cells() {
    let text = "O1.\n.2B\nC..";
    let life = Life::from_plaintext(text, LifeOptions::default());
    let again = Life::from_plaintext(&life.to_plaintext(), LifeOptions::default());
    assert_eq!(again.to_plaintext(), text);
    assert_eq!(again.get_pop(1), 1);
    assert_eq!(again.get_pop(2), 1);
}

#[test]
fn rle_write_then_read_keeps_the_grid() {
    // a row long enough to wrap the body, a faction-1 cell, and empty rows at the end
    let row: String = (0..100).map(|i| if i % 2 == 0 { 'O' } else { '.' }).collect();
    let text = format!("{}\n..1\n...\n...", row);
    let life = Life::from_plaintext(&text, LifeOptions::default());
    let mut metadata = PatternMetadata::default();
    metadata.name = Some(String::from("stripes"));
    metadata.description = Some(String::from("a test"));
    let pattern = Pattern { life, metadata };
    let rle = pattern.to_rle();
    assert!(rle.lines().all(|l| l.len() <= 70));
    let back = Pattern::from_rle(&rle);
    assert_eq!(back.life.size(), pos(100, 4));
    assert_eq!(back.metadata.name, Some(String::from("stripes")));
    assert_eq!(back.metadata.description, Some(String::from("a test")));
    assert_eq!(*back.life.get_rule(), LifeRule::gol());
    let expected = format!("{}\n..O{}\n{}\n{}", row, ".".repeat(97), ".".repeat(100), ".".repeat(100));
    assert_eq!(back.life.to_plaintext(), expected);
    assert_eq!(back.to_rle(), rle);
}

#[test]
fn apgcode_classification_reads_back() {
    let life = Life::from_plaintext("OO\nOO", LifeOptions::default());
    let mut metadata = PatternMetadata::default();
    metadata.classification = Some(Classification::Megasized);
    metadata.period_or_pop_or_lifespan = Some(1234);
    let pattern = Pattern { life, metadata };
    let code = apgcode_from_pattern(&pattern);
    assert_eq!(code, "megasized1234_33");
    let back = new_pattern_from_apgcode(&code, None);
    assert_eq!(back.metadata.classification, Some(Classification::Megasized));
    assert_eq!(back.metadata.period_or_pop_or_lifespan, Some(1234));
    assert_eq!(back.life.to_plaintext(), "OO\nOO\n..\n..\n..");
}

#[test]
fn rle_readable_tells_what_the_reader_takes() {
    assert!(rle_readable(GLIDER_RLE));
    assert!(rle_readable(GOSPER_RLE));
    assert!(rle_readable(STAR_WARS_RLE));
    // an unknown tag, an unknown header line, a size past the limit, a run too long
    assert!(!rle_readable("x = 3, y = 3\nbq!"));
    assert!(!rle_readable("#X what\nx = 3, y = 3\nbo!"));
    assert!(!rle_readable("bo$2bo$3o!"));
    assert!(!rle_readable("x = 40000, y = 3\nbo!"));
    assert!(!rle_readable("x = 3, y = 3\n40000o!"));
    assert!(!rle_readable("x = 3, y = 3, rule = B3/S23/5\nbo!"));
    // what follows `!` on its line is not read
    assert!(rle_readable("x = 3, y = 3\nbo!zzz"));
}

#[test]
fn plaintext_readable_tells_what_the_reader_takes() {
    assert_eq!(plaintext_readable(GLIDER_TXT), (true, true));
    assert_eq!(plaintext_readable(FACTION_TXT), (true, false));
    assert_eq!(plaintext_readable("!comment with 1 and x\n.O."), (true, true));
    assert_eq!(plaintext_readable(".O.\n.X."), (false, true));
}

#[test]
fn rule_text_reads_back() {
    let rule = LifeRule::from_str("B36/S23");
    assert_eq!(rule.to_str(), "B36/S23");
    assert_eq!(LifeRule::from_str("B2/S345/4").to_str(), "B2/S345/4");
    // counts of zero neighbours are not written
    assert_eq!(LifeRule::from_str("B/S").to_str(), "B0/S0");
}
