use vstd::prelude::*;

verus! {

/// How a note was articulated.
#[derive(Debug, Clone, Copy, PartialEq, Eq, Structural)]
pub enum Technique {
    Slide,
}

/// The discrete part of a detected MIDI note that fingering decisions read:
/// its pitch and its articulation.  Timing and loudness stay with the caller.
#[derive(Debug, Clone, Copy, PartialEq, Eq, Structural)]
pub struct NoteEvent {
    pub pitch: u8,
    pub technique: Option<Technique>,
}

impl NoteEvent {
    /// Whether the note is reached by sliding from the previous one.
    pub open spec fn is_slide(self) -> bool {
        self.technique matches Some(Technique::Slide)
    }

    pub fn slide(&self) -> (b: bool)
        ensures
            b == self.is_slide(),
    {
        match self.technique {
            Some(Technique::Slide) => true,
            None => false,
        }
    }
}

} // verus!
