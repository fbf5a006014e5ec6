use vstd::prelude::*;

use crate::life::{Life, Pos};

pub mod classify;
pub mod identify;

verus! {

/// What kind of pattern a grid holds.
#[derive(Debug, Clone, Copy, PartialEq, Eq, Structural)]
pub enum Classification {
    StilLife,
    Oscillator,
    Spaceship,
    LinearGrowth,
    Methuselah,
    Messless,
    Megasized,
    Explosive,
    Linear,
    Quadratic,
    Replicator,
    Pathological,
}

/// What is known of a pattern besides its cells.
#[derive(Clone, Debug, PartialEq, Eq)]
pub struct PatternMetadata {
    pub name: Option<String>,
    pub description: Option<String>,
    pub classification: Option<Classification>,
    pub period_or_pop_or_lifespan: Option<u32>,
}

impl Default for PatternMetadata {
    fn default() -> (m: Self)
        ensures
            m.name is None,
            m.description is None,
            m.classification is None,
            m.period_or_pop_or_lifespan is None,
    {
        Self { name: None, description: None, classification: None, period_or_pop_or_lifespan: None }
    }
}

/// A grid together with its metadata.
#[derive(Clone)]
pub struct Pattern {
    pub life: Life,
    pub metadata: PatternMetadata,
}

impl Default for Pattern {
    /// An empty 8 by 8 grid under Conway's rule, with no metadata.
    fn default() -> (p: Self)
        ensures
            p.life.is_fresh(crate::life::LifeAlgoSelect::Basic, Pos { x: 8, y: 8 }, p.life.spec_rule()),
            p.life.spec_rule().spec_lut() == crate::life::gol_lut(),
            p.metadata.name is None,
            p.metadata.description is None,
            p.metadata.classification is None,
            p.metadata.period_or_pop_or_lifespan is None,
    {
        Self { life: Life::default(), metadata: PatternMetadata::default() }
    }
}

impl Pattern {
    /// `life` with no metadata.
    pub fn new_unclassified(life: Life) -> (p: Self)
        ensures
            p.life == life,
            p.metadata.name is None,
            p.metadata.description is None,
            p.metadata.classification is None,
            p.metadata.period_or_pop_or_lifespan is None,
    {
        Self { life, metadata: PatternMetadata::default() }
    }
}

} // verus!
