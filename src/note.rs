use vstd::prelude::*;

verus! {

/// The span `[start_beat, end_beat]` that one note occupies on its line, in whole beats.
#[derive(Clone, Copy, Debug, PartialEq, Eq, Structural, PartialOrd, Ord, Hash)]
pub struct NoteBox {
    pub start_beat: u64,
    pub end_beat: u64,
}

impl NoteBox {
    /// A note spans a non-empty closed range of beats.
    pub open spec fn valid(self) -> bool {
        self.start_beat <= self.end_beat
    }

    /// `self` lies before `other`: it ends no later than `other` starts.
    pub open spec fn precedes(self, other: NoteBox) -> bool {
        self.end_beat <= other.start_beat
    }

    /// The two spans do not overlap: one ends no later than the other starts (they may
    /// touch at a shared end).
    pub open spec fn disjoint(self, other: NoteBox) -> bool {
        self.precedes(other) || other.precedes(self)
    }

    pub open spec fn spec_contains_beat(self, beat: u64) -> bool {
        self.start_beat <= beat && beat <= self.end_beat
    }

    /// Whether `beat` falls inside the closed span.
    pub fn contains_beat(&self, beat: u64) -> (r: bool)
        ensures
            r == self.spec_contains_beat(beat),
    {
        self.start_beat <= beat && self.end_beat >= beat
    }
}

} // verus!
