use vstd::prelude::*;

use crate::note::NoteBox;
use crate::skip_list::{inserted, ordered, NoteSkipList, NOTE_SKIP_LIST_LEVELS};

verus! {

/// The free span around `beat` on a line holding `s`: `None` when an interval covers
/// `beat`; otherwise the end of the last interval before `beat` (or 0) and the start of the
/// first interval after it (or `None` when there is none).
pub open spec fn is_gap_answer(s: Seq<NoteBox>, beat: u64, r: Option<(u64, Option<u64>)>) -> bool {
    match r {
        None => exists|i: int| 0 <= i < s.len() && (#[trigger] s[i]).spec_contains_beat(beat),
        Some((lo, hi)) => exists|k: int| #[trigger] gap_split(s, beat, k, lo, hi),
    }
}

/// The first `k` intervals of `s` end before `beat`, the others start after it, and
/// `lo`, `hi` are the end of the `k`-th interval's predecessor (or 0) and its start (or
/// `None` past the last interval).
pub open spec fn gap_split(s: Seq<NoteBox>, beat: u64, k: int, lo: u64, hi: Option<u64>) -> bool {
    &&& 0 <= k <= s.len()
    &&& forall|i: int| 0 <= i < k ==> (#[trigger] s[i]).end_beat < beat
    &&& forall|i: int| k <= i < s.len() ==> beat < (#[trigger] s[i]).start_beat
    &&& lo == (if k == 0 { 0 } else { s[k - 1].end_beat })
    &&& hi == (if k == s.len() { None } else { Some(s[k].start_beat) })
}

/// On an empty line every beat is free, from 0 with no upper bound.
pub proof fn lemma_gap_empty_line(beat: u64, r: Option<(u64, Option<u64>)>)
    requires
        is_gap_answer(Seq::empty(), beat, r),
    ensures
        r == Some((0u64, Option::<u64>::None)),
{
    if let Some((lo, hi)) = r {
        let k = choose|k: int| #[trigger] gap_split(Seq::empty(), beat, k, lo, hi);
    }
}

/// On a line holding only `[a, b]`: a beat inside it has no free span; one before it is
/// free from 0 up to `a`; one after it is free from `b` on, with no upper bound.
pub proof fn lemma_gap_single_interval(n: NoteBox, beat: u64, r: Option<(u64, Option<u64>)>)
    requires
        n.valid(),
        is_gap_answer(seq![n], beat, r),
    ensures
        n.start_beat <= beat <= n.end_beat ==> r is None,
        beat < n.start_beat ==> r == Some((0u64, Some(n.start_beat))),
        n.end_beat < beat ==> r == Some((n.end_beat, Option::<u64>::None)),
{
    let s = seq![n];
    if let Some((lo, hi)) = r {
        let k = choose|k: int| #[trigger] gap_split(s, beat, k, lo, hi);
        if k == 0 {
            assert(beat < s[0].start_beat);
        } else {
            assert(s[0].end_beat < beat);
        }
    } else {
        let i = choose|i: int| 0 <= i < s.len() && (#[trigger] s[i]).spec_contains_beat(beat);
        assert(s[i] == n);
    }
}

/// One skip list per line of the grid.
pub struct NoteLines {
    lines: Vec<NoteSkipList>,
}

impl NoteLines {
    /// Every line is well formed.
    pub closed spec fn wf(&self) -> bool {
        forall|i: int| 0 <= i < self.lines@.len() ==> (#[trigger] self.lines@[i]).wf()
    }

    /// The number of lines.
    pub closed spec fn line_count(&self) -> nat {
        self.lines@.len()
    }

    /// The list of line `i`.
    pub closed spec fn line_list(&self, i: int) -> NoteSkipList {
        self.lines@[i]
    }

    /// The intervals of line `i`, in order.
    pub closed spec fn line_view(&self, i: int) -> Seq<NoteBox> {
        self.lines@[i]@
    }

    /// `lines` empty lines; line `i` draws its levels from the generator seeded with `i`.
    pub fn new(lines: usize) -> (r: Self)
        ensures
            r.wf(),
            r.line_count() == lines,
            forall|i: int| 0 <= i < lines ==> r.line_view(i) == Seq::<NoteBox>::empty(),
    {
        let mut v: Vec<NoteSkipList> = Vec::new();
        let mut i: usize = 0;
        while i < lines
            invariant
                i <= lines,
                v@.len() == i,
                forall|j: int| 0 <= j < i ==> (#[trigger] v@[j]).wf() && v@[j]@ == Seq::<NoteBox>::empty(),
            decreases lines - i,
        {
            v.push(NoteSkipList::with_seed(i as u64));
            i += 1;
        }
        NoteLines { lines: v }
    }

    /// The list of line `line_ix`.
    pub fn line(&self, line_ix: usize) -> (r: &NoteSkipList)
        requires
            self.wf(),
            line_ix < self.line_count(),
        ensures
            r.wf(),
            r@ == self.line_view(line_ix as int),
    {
        &self.lines[line_ix]
    }

    /// Inserts `note` on line `line_ix`; the interval must not overlap (it may touch) any interval
    /// already on that line.
    pub fn insert(&mut self, line_ix: usize, note: NoteBox)
        requires
            old(self).wf(),
            line_ix < old(self).line_count(),
            note.valid(),
            forall|i: int| 0 <= i < old(self).line_view(line_ix as int).len() ==> (#[trigger] old(self).line_view(line_ix as int)[i]).disjoint(note),
            old(self).line_view(line_ix as int).len() + 1 < u32::MAX,
        ensures
            final(self).wf(),
            final(self).line_count() == old(self).line_count(),
            ordered(final(self).line_view(line_ix as int)),
            exists|q: int| 0 <= q <= old(self).line_view(line_ix as int).len()
                && final(self).line_view(line_ix as int) == old(self).line_view(line_ix as int).insert(q, note),
            forall|i: int| 0 <= i < old(self).line_count() && i != line_ix ==> final(self).line_view(i) == old(self).line_view(i),
            forall|i: int| 0 <= i < old(self).line_count() && i != line_ix ==> #[trigger] final(self).line_list(i) == old(self).line_list(i),
            exists|level: int| 0 <= level < NOTE_SKIP_LIST_LEVELS
                && #[trigger] inserted(old(self).line_list(line_ix as int), final(self).line_list(line_ix as int), note, level),
    {
        let mut line = self.lines.remove(line_ix);
        let ghost before = line;
        assert(before == old(self).lines@[line_ix as int]);
        line.insert(note);
        let ghost after = line;
        self.lines.insert(line_ix, line);
        assert(self.lines@[line_ix as int] == after);
        proof {
            let lv = choose|level: int| 0 <= level < NOTE_SKIP_LIST_LEVELS && #[trigger] inserted(before, after, note, level);
            assert(old(self).line_list(line_ix as int) == before);
            assert(self.line_list(line_ix as int) == after);
            assert(inserted(old(self).line_list(line_ix as int), self.line_list(line_ix as int), note, lv));
        }
        assert forall|i: int| 0 <= i < self.lines@.len() implies (#[trigger] self.lines@[i]).wf() by {
            if i < line_ix {
                assert(self.lines@[i] == old(self).lines@[i]);
            } else if i > line_ix {
                assert(self.lines@[i] == old(self).lines@[i]);
            }
        }
        assert forall|i: int| 0 <= i < old(self).line_count() && i != line_ix implies final(self).line_view(i) == old(self).line_view(i)
            && final(self).line_list(i) == old(self).line_list(i) by {
            assert(self.lines@[i] == old(self).lines@[i]);
        }
    }

    /// The free span around `beat` on line `line_ix` (see `is_gap_answer`).
    pub fn get_bounds(&self, line_ix: usize, beat: u64) -> (r: Option<(u64, Option<u64>)>)
        requires
            self.wf(),
            line_ix < self.line_count(),
        ensures
            is_gap_answer(self.line_view(line_ix as int), beat, r),
    {
        let line = &self.lines[line_ix];
        assert(line.wf());
        line.bounds_around(beat)
    }
}

} // verus!
