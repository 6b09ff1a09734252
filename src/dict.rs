//! Dictionary readings.
use vstd::prelude::*;

verus! {

/// A JMdict priority marker and its rank.
#[derive(Clone, Copy, Debug, PartialEq, Eq, Structural, Hash)]
pub enum Priority {
    News(u8),
    Ichi(u8),
    Spec(u8),
    Gai(u8),
    Nf(u8),
}

/// One reading of a dictionary entry.
#[derive(Clone, Debug)]
pub struct Dict {
    pub sequence: i32,
    pub reading: String,
    /// The reading is written with kanji.
    pub kanji: bool,
    pub priorities: Option<Vec<Priority>>,
    pub jlpt_lvl: Option<i32>,
}

impl Dict {
    /// The number of priority markers.
    pub open spec fn priority_count(&self) -> nat {
        match self.priorities {
            Some(p) => p@.len(),
            None => 0,
        }
    }

    pub fn priority_len(&self) -> (r: usize)
        ensures
            r == self.priority_count(),
    {
        match &self.priorities {
            Some(p) => p.len(),
            None => 0,
        }
    }

    /// The length of the reading in characters.
    pub fn len(&self) -> (r: usize)
        ensures
            r == self.reading@.len(),
    {
        self.reading.as_str().unicode_len()
    }
}

} // verus!
