use slab::Slab;
use vstd::prelude::*;
use vstd::seq_lib::{to_multiset_insert, to_multiset_remove};
use vstd::string::*;

use crate::arena::{
    node_arena_get, node_arena_insert, node_arena_new, node_arena_remove, node_arena_set, node_extent, node_slots,
    note_arena_get, note_arena_insert, note_arena_new, note_arena_remove, note_extent, note_slots,
};
use crate::handle::SlabKey;
use crate::levels::LevelGenerator;
use crate::note::NoteBox;
use crate::lines::{gap_split, is_gap_answer};

verus! {

/// The number of levels of every skip list: level 0 links every node, each level above it
/// is a sparser chain of shortcuts.
pub const NOTE_SKIP_LIST_LEVELS: usize = 5;

/// The seed of the level generator of a list made by `NoteSkipList::new`.
pub const DEFAULT_LEVEL_SEED: u64 = 0;

/// A node: a handle to its interval, and its successor on each level.
#[derive(Clone, Copy)]
pub struct NoteSkipListNode {
    pub val_slot_key: SlabKey<NoteBox>,
    /// `links[0]` is the next node in order; `links[k]` for `k > 0` is a shortcut to a node
    /// further along.
    pub links: [Option<SlabKey<NoteSkipListNode>>; NOTE_SKIP_LIST_LEVELS],
}

/// Links with no successor on any level.
pub fn blank_shortcuts<T>() -> (r: [Option<SlabKey<T>>; NOTE_SKIP_LIST_LEVELS])
    ensures
        forall|l: int| 0 <= l < NOTE_SKIP_LIST_LEVELS ==> r[l] is None,
{
    [None, None, None, None, None]
}

/// The slot that a link leads to, if any.
pub open spec fn link_slot(link: Option<SlabKey<NoteSkipListNode>>) -> Option<nat> {
    match link {
        Some(h) => Some(h@),
        None => None,
    }
}

/// An interval that ends at `end` lies behind `target`: it ends before it, or at it when
/// `inclusive`.
pub open spec fn behind(end: u64, target: u64, inclusive: bool) -> bool {
    if inclusive { end <= target } else { end < target }
}

/// Every note of `s` lies wholly before every later one (touching ends allowed).
pub open spec fn ordered(s: Seq<NoteBox>) -> bool {
    &&& forall|i: int| 0 <= i < s.len() ==> #[trigger] s[i].valid()
    &&& forall|i: int, j: int|
        0 <= i < j < s.len() ==> (#[trigger] s[i]).end_beat <= (#[trigger] s[j]).start_beat
}

impl NoteSkipList {
    /// The intervals held in the payload arena, by slot.
    pub closed spec fn payloads(&self) -> Map<int, NoteBox> {
        note_slots(self.notes)
    }

    /// The nodes held in the node arena, by slot.
    pub closed spec fn node_records(&self) -> Map<int, NoteSkipListNode> {
        node_slots(self.nodes)
    }

    /// The generator the list draws levels from.
    pub closed spec fn generator(&self) -> LevelGenerator {
        self.level_gen
    }

    /// `preds` is what a search from node slot `start` towards `target` finds: the node
    /// at `preds[0]` is the last one from `start` on behind `target` (or `start`), and each
    /// `preds[l]` stands between `start` and it, behind `target` (or is `start`), with its
    /// level-`l` link leading nowhere or to a node not behind `target`.
    pub open spec fn search_found(&self, start: nat, target: u64, inclusive: bool, preds: Seq<nat>) -> bool {
        let c = self.chain();
        let s = self.position(start);
        let p = self.position(preds[0]);
        &&& preds.len() == NOTE_SKIP_LIST_LEVELS
        &&& s <= p < c.len()
        &&& c[p] == preds[0]
        &&& (p == s || behind(self.note_at(c[p]).end_beat, target, inclusive))
        &&& (p + 1 == c.len() || !behind(self.note_at(c[p + 1]).end_beat, target, inclusive))
        &&& forall|l: int| 0 <= l < NOTE_SKIP_LIST_LEVELS ==> {
            let q = self.position(#[trigger] preds[l]);
            &&& s <= q <= p
            &&& c[q] == preds[l]
            &&& (q == s || behind(self.note_at(c[q]).end_beat, target, inclusive))
            &&& match self.link_at(c[q], l) {
                Some(t) => !behind(self.note_at(t).end_beat, target, inclusive),
                None => true,
            }
        }
    }
}

/// `new` is `old` with one more node, in slot `nk`, which held nothing before.
pub open spec fn gained_node(old: NoteSkipList, new: NoteSkipList, nk: nat) -> bool {
    &&& !old.node_records().contains_key(nk as int)
    &&& new.node_records().dom() == old.node_records().dom().insert(nk as int)
}

/// `new`'s payload arena is `old`'s with `note` put in slot `pk`, which held nothing before.
pub open spec fn gained_payload(old: NoteSkipList, new: NoteSkipList, pk: int, note: NoteBox) -> bool {
    &&& !old.payloads().contains_key(pk)
    &&& new.payloads() == old.payloads().insert(pk, note)
}

/// The links after a node in slot `nk` is put into an empty list: it has none.
pub open spec fn inserted_into_empty(new: NoteSkipList, nk: nat) -> bool {
    &&& new.chain() == seq![nk]
    &&& forall|l: int| 0 <= l < NOTE_SKIP_LIST_LEVELS ==> (#[trigger] new.link_at(nk, l)) is None
}

/// The links after a node of level `level` in slot `nk` becomes the head: it leads to the
/// old head on levels `0..=level` and takes over the old head's links above; the old head
/// keeps its links up to `level` and loses those above; no other node changes.
pub open spec fn inserted_as_head(old: NoteSkipList, new: NoteSkipList, level: int, nk: nat) -> bool {
    let h = old.chain()[0];
    &&& new.chain() == old.chain().insert(0, nk)
    &&& forall|l: int| 0 <= l < NOTE_SKIP_LIST_LEVELS ==> #[trigger] new.link_at(nk, l)
        == (if l <= level { Some(h) } else { old.link_at(h, l) })
    &&& forall|l: int| 0 <= l < NOTE_SKIP_LIST_LEVELS ==> #[trigger] new.link_at(h, l)
        == (if l <= level { old.link_at(h, l) } else { None })
    &&& forall|i: int, l: int| 1 <= i < old.chain().len() && 0 <= l < NOTE_SKIP_LIST_LEVELS
        ==> #[trigger] new.link_at(old.chain()[i], l) == old.link_at(old.chain()[i], l)
}

/// The links after a node of level `level` in slot `nk` is spliced in after `preds[0]`: on
/// each level `l <= level` it takes over `preds[l]`'s link and `preds[l]` leads to it; it
/// has no links above `level`; no other link changes.
pub open spec fn spliced_after(old: NoteSkipList, new: NoteSkipList, level: int, nk: nat, preds: Seq<nat>) -> bool {
    &&& new.chain() == old.chain().insert(old.position(preds[0]) + 1, nk)
    &&& forall|l: int| 0 <= l < NOTE_SKIP_LIST_LEVELS ==> #[trigger] new.link_at(nk, l)
        == (if l <= level { old.link_at(preds[l], l) } else { None })
    &&& forall|i: int, l: int| 0 <= i < old.chain().len() && 0 <= l < NOTE_SKIP_LIST_LEVELS
        ==> #[trigger] new.link_at(old.chain()[i], l)
            == (if l <= level && preds[l] == old.chain()[i] { Some(nk) } else { old.link_at(old.chain()[i], l) })
}

/// `new` is `old` with `note` inserted by a node of level `level`, as the skip list does
/// it: one new payload slot and one new node slot, nothing freed, and the links changed as
/// `inserted_into_empty`, `inserted_as_head` or `spliced_after` say.
pub open spec fn inserted(old: NoteSkipList, new: NoteSkipList, note: NoteBox, level: int) -> bool {
    &&& exists|pk: int| #[trigger] gained_payload(old, new, pk, note)
    &&& exists|nk: nat| #[trigger] gained_node(old, new, nk) && new.note_at(nk) == note && {
        &&& (old.chain().len() == 0 ==> inserted_into_empty(new, nk))
        &&& (old.chain().len() > 0 && old.note_at(old.chain()[0]).end_beat > note.start_beat
            ==> inserted_as_head(old, new, level, nk))
        &&& (old.chain().len() > 0 && old.note_at(old.chain()[0]).end_beat <= note.start_beat
            ==> exists|preds: Seq<nat>| old.search_found(old.chain()[0], note.start_beat, true, preds)
                && #[trigger] spliced_after(old, new, level, nk, preds))
    }
}

/// `new` is `old` with the node at position `q` taken out, as the skip list removes it:
/// both its slots are freed; every link that led to it now leads where it led on the same
/// level; when it was the head, its successor takes over, on each level, the head's link
/// where the head did not lead to it; no other link changes.
pub open spec fn removed_at(old: NoteSkipList, new: NoteSkipList, q: int) -> bool {
    let c = old.chain();
    &&& 0 <= q < c.len()
    &&& new.chain() == c.remove(q)
    &&& new.node_records().dom() == old.node_records().dom().remove(c[q] as int)
    &&& new.payloads() == old.payloads().remove(old.node_at(c[q]).val_slot_key@ as int)
    &&& forall|i: int, l: int| 0 <= i < c.len() && i != q && !(q == 0 && i == 1) && 0 <= l < NOTE_SKIP_LIST_LEVELS
        ==> #[trigger] new.link_at(c[i], l)
            == (if old.link_at(c[i], l) == Some(c[q]) { old.link_at(c[q], l) } else { old.link_at(c[i], l) })
    &&& (q == 0 && c.len() > 1 ==> forall|l: int| 0 <= l < NOTE_SKIP_LIST_LEVELS ==> #[trigger] new.link_at(c[1], l)
        == (if old.link_at(c[0], l) == Some(c[1]) { old.link_at(c[1], l) } else { old.link_at(c[0], l) }))
}

/// Slot `t` stands in `c` after position `i`.
pub open spec fn follows(c: Seq<nat>, i: int, t: nat) -> bool {
    exists|j: int| i < j < c.len() && c[j] == t
}

proof fn lemma_follows_insert(c: Seq<nat>, q: int, x: nat, i: int, t: nat)
    requires
        follows(c, i, t),
        0 <= q <= c.len(),
        0 <= i < c.len(),
    ensures
        follows(c.insert(q, x), if i < q { i } else { i + 1 }, t),
{
    let j = choose|j: int| i < j < c.len() && c[j] == t;
    let j2 = if j < q { j } else { j + 1 };
    assert(c.insert(q, x)[j2] == t);
}

/// The intervals of a list, handed out one at a time in order.
pub struct NoteSkipListIterator {
    items: Vec<NoteBox>,
    next: usize,
}

impl NoteSkipListIterator {
    pub closed spec fn wf(&self) -> bool {
        self.next <= self.items@.len()
    }

    /// The intervals not yet handed out.
    pub closed spec fn remaining(&self) -> Seq<NoteBox> {
        self.items@.subrange(self.next as int, self.items@.len() as int)
    }

    /// The next interval, or `None` once all have been handed out.
    pub fn next(&mut self) -> (r: Option<NoteBox>)
        requires
            old(self).wf(),
        ensures
            final(self).wf(),
            old(self).remaining().len() == 0 ==> r is None && final(self).remaining() == old(self).remaining(),
            old(self).remaining().len() > 0 ==> r == Some(old(self).remaining()[0])
                && final(self).remaining() == old(self).remaining().drop_first(),
    {
        if self.next < self.items.len() {
            let item = self.items[self.next];
            self.next = self.next + 1;
            assert(self.remaining() =~= old(self).remaining().drop_first());
            Some(item)
        } else {
            None
        }
    }
}

/// The nodes of a list in level-0 order, handed out one at a time.
pub struct NoteSkipListNodeIterator {
    nodes: Vec<NoteSkipListNode>,
    next: usize,
}

impl NoteSkipListNodeIterator {
    pub closed spec fn wf(&self) -> bool {
        self.next <= self.nodes@.len()
    }

    /// The nodes not yet handed out.
    pub closed spec fn remaining(&self) -> Seq<NoteSkipListNode> {
        self.nodes@.subrange(self.next as int, self.nodes@.len() as int)
    }

    /// The next node, or `None` once all have been handed out.
    pub fn next(&mut self) -> (r: Option<NoteSkipListNode>)
        requires
            old(self).wf(),
        ensures
            final(self).wf(),
            old(self).remaining().len() == 0 ==> r is None && final(self).remaining() == old(self).remaining(),
            old(self).remaining().len() > 0 ==> r == Some(old(self).remaining()[0])
                && final(self).remaining() == old(self).remaining().drop_first(),
    {
        if self.next < self.nodes.len() {
            let item = self.nodes[self.next];
            self.next = self.next + 1;
            assert(self.remaining() =~= old(self).remaining().drop_first());
            Some(item)
        } else {
            None
        }
    }
}

/// A skip list of note intervals, ordered by position on the line.
///
/// The nodes and the intervals live in two slab arenas that the list owns; nodes refer to
/// each other and to their intervals by handle.
pub struct NoteSkipList {
    head_key: Option<SlabKey<NoteSkipListNode>>,
    notes: Slab<NoteBox>,
    nodes: Slab<NoteSkipListNode>,
    level_gen: LevelGenerator,
    /// The slots of the nodes, in level-0 order from the head.
    chain: Ghost<Seq<nat>>,
}

impl NoteSkipList {
    /// The node slots in level-0 order.
    pub closed spec fn chain(&self) -> Seq<nat> {
        self.chain@
    }

    /// The node held in slot `k`.
    pub closed spec fn node_at(&self, k: nat) -> NoteSkipListNode {
        node_slots(self.nodes)[k as int]
    }

    /// The interval of the node in slot `k`.
    pub closed spec fn note_at(&self, k: nat) -> NoteBox {
        note_slots(self.notes)[self.node_at(k).val_slot_key@ as int]
    }

    /// Where on level `l` the node in slot `k` leads.
    pub open spec fn link_at(&self, k: nat, l: int) -> Option<nat> {
        link_slot(self.node_at(k).links[l])
    }

    /// The position of node slot `k` in level-0 order.
    pub open spec fn position(&self, k: nat) -> int {
        self.chain().index_of(k)
    }

    /// The intervals in level-0 order.
    pub closed spec fn view(&self) -> Seq<NoteBox> {
        self.chain@.map_values(|k: nat| self.note_at(k))
    }

    /// Node slot `t` stands after position `i` of the level-0 chain.
    pub open spec fn after(&self, i: int, t: nat) -> bool {
        follows(self.chain(), i, t)
    }

    /// The links of the node at position `i` are consistent: level 0 leads to the next
    /// position (or nowhere from the last), every shortcut leads further along the chain.
    pub open spec fn links_ok(&self, i: int) -> bool {
        let c = self.chain();
        let k = c[i];
        &&& (i + 1 < c.len() ==> self.link_at(k, 0) == Some(c[i + 1]))
        &&& (i + 1 == c.len() ==> self.link_at(k, 0) is None)
        &&& forall|l: int|
            0 <= l < NOTE_SKIP_LIST_LEVELS ==> match #[trigger] self.link_at(k, l) {
                Some(t) => self.after(i, t),
                None => true,
            }
    }

    /// Each arena holds `n` records and has laid out fewer than `u32::MAX` slots.
    pub closed spec fn arenas_fit(&self, n: nat) -> bool {
        &&& node_slots(self.nodes).dom().finite()
        &&& node_slots(self.nodes).dom().len() == n
        &&& node_slots(self.nodes).dom().len() <= node_extent(self.nodes)
        &&& node_extent(self.nodes) < u32::MAX
        &&& note_slots(self.notes).dom().finite()
        &&& note_slots(self.notes).dom().len() == n
        &&& note_slots(self.notes).dom().len() <= note_extent(self.notes)
        &&& note_extent(self.notes) < u32::MAX
    }

    /// The structural invariant of the list.
    pub closed spec fn wf(&self) -> bool {
        let c = self.chain@;
        &&& c.no_duplicates()
        &&& (self.head_key is None <==> c.len() == 0)
        &&& (c.len() > 0 ==> self.head_key->0@ == c[0])
        &&& forall|i: int| 0 <= i < c.len() ==> node_slots(self.nodes).contains_key(#[trigger] c[i] as int)
        &&& forall|i: int|
            0 <= i < c.len() ==> note_slots(self.notes).contains_key(
                self.node_at(#[trigger] c[i]).val_slot_key@ as int,
            )
        &&& forall|i: int| 0 <= i < c.len() ==> #[trigger] self.links_ok(i)
        &&& self.arenas_fit(c.len())
        &&& forall|i: int, j: int|
            0 <= i < c.len() && 0 <= j < c.len() && i != j ==> self.node_at(#[trigger] c[i]).val_slot_key@
                != self.node_at(#[trigger] c[j]).val_slot_key@
        &&& ordered(self.view())
    }

    proof fn lemma_position(&self, i: int)
        requires
            self.wf(),
            0 <= i < self.chain().len(),
        ensures
            self.position(self.chain()[i]) == i,
    {
        let c = self.chain();
        let j = c.index_of(c[i]);
        assert(c.contains(c[i]));
    }

    proof fn lemma_ends_grow(&self, i: int, j: int)
        requires
            self.wf(),
            0 <= i <= j < self.chain().len(),
        ensures
            self.note_at(self.chain()[i]).end_beat <= self.note_at(self.chain()[j]).end_beat,
    {
        let v = self.view();
        if i < j {
            assert(v[i].end_beat <= v[j].start_beat);
            assert(v[j].valid());
        }
    }

    /// An empty list whose levels come from the generator seeded with `DEFAULT_LEVEL_SEED`.
    pub fn new() -> (r: Self)
        ensures
            r.wf(),
            r@ == Seq::<NoteBox>::empty(),
    {
        NoteSkipList::with_seed(DEFAULT_LEVEL_SEED)
    }

    /// An empty list whose levels come from the generator seeded with `seed`.
    pub fn with_seed(seed: u64) -> (r: Self)
        ensures
            r.wf(),
            r@ == Seq::<NoteBox>::empty(),
    {
        let r = NoteSkipList {
            head_key: None,
            notes: note_arena_new(),
            nodes: node_arena_new(),
            level_gen: LevelGenerator::new(seed),
            chain: Ghost(Seq::empty()),
        };
        assert(r@ =~= Seq::<NoteBox>::empty());
        r
    }

    /// The handle of the first node, if the list is not empty.
    pub fn head(&self) -> (r: Option<SlabKey<NoteSkipListNode>>)
        requires
            self.wf(),
        ensures
            r is None <==> self@.len() == 0,
            r matches Some(h) ==> h@ == self.chain()[0],
    {
        self.head_key
    }

    /// Walks the shortcuts from node `start` towards `target` and records in `levels`, for
    /// each level, the last node that the walk stood on there whose interval is behind
    /// `target` (ends before it, or at it when `inclusive`).
    /// Walks the shortcuts from node `start`, whose interval ends before `target`, towards
    /// `target`, and records in `levels`, for each level, the last node that the walk stood
    /// on there before a node whose interval ends at or after `target`.
    ///
    /// `levels[0]` ends as the last node, from `start` on, whose interval ends before
    /// `target` (or `start` itself); each `levels[l]` stands at or before it and its link on
    /// level `l` leads nowhere or to a node whose interval ends at or after `target`.
    pub fn search(&self, start: SlabKey<NoteSkipListNode>, target: u64, levels: &mut [SlabKey<NoteSkipListNode>; NOTE_SKIP_LIST_LEVELS])
        requires
            self.wf(),
            self.chain().contains(start@),
            self.note_at(start@).end_beat < target,
        ensures
            ({
                let c = self.chain();
                let s = self.position(start@);
                let p = self.position(final(levels)[0]@);
                &&& s <= p < c.len()
                &&& c[p] == final(levels)[0]@
                &&& (p == s || behind(self.note_at(c[p]).end_beat, target, false))
                &&& (p + 1 == c.len() || !behind(self.note_at(c[p + 1]).end_beat, target, false))
                &&& forall|l: int| 0 <= l < NOTE_SKIP_LIST_LEVELS ==> {
                    let q = self.position(#[trigger] final(levels)[l]@);
                    &&& s <= q <= p
                    &&& c[q] == final(levels)[l]@
                    &&& (q == s || behind(self.note_at(c[q]).end_beat, target, false))
                    &&& match self.link_at(c[q], l) {
                        Some(t) => !behind(self.note_at(t).end_beat, target, false),
                        None => true,
                    }
                }
            }),
    {
        self.search_by(start, target, false, levels);
    }

    #[verifier::spinoff_prover]
    #[verifier::loop_isolation(false)]
    fn search_by(&self, start: SlabKey<NoteSkipListNode>, target: u64, inclusive: bool, levels: &mut [SlabKey<NoteSkipListNode>; NOTE_SKIP_LIST_LEVELS])
        requires
            self.wf(),
            self.chain().contains(start@),
            behind(self.note_at(start@).end_beat, target, inclusive),
        ensures
            ({
                let c = self.chain();
                let s = self.position(start@);
                let p = self.position(final(levels)[0]@);
                &&& s <= p < c.len()
                &&& c[p] == final(levels)[0]@
                &&& (p == s || behind(self.note_at(c[p]).end_beat, target, inclusive))
                &&& (p + 1 == c.len() || !behind(self.note_at(c[p + 1]).end_beat, target, inclusive))
                &&& forall|l: int| 0 <= l < NOTE_SKIP_LIST_LEVELS ==> {
                    let q = self.position(#[trigger] final(levels)[l]@);
                    &&& s <= q <= p
                    &&& c[q] == final(levels)[l]@
                    &&& (q == s || behind(self.note_at(c[q]).end_beat, target, inclusive))
                    &&& match self.link_at(c[q], l) {
                        Some(t) => !behind(self.note_at(t).end_beat, target, inclusive),
                        None => true,
                    }
                }
            }),
    {
        let ghost c = self.chain();
        let ghost s = self.position(start@);
        proof { self.lemma_position(c.index_of(start@)); }
        let mut i: usize = 0;
        while i < NOTE_SKIP_LIST_LEVELS
            invariant
                0 <= i <= NOTE_SKIP_LIST_LEVELS,
                forall|l: int| 0 <= l < i ==> levels[l] == start,
            decreases NOTE_SKIP_LIST_LEVELS - i,
        {
            levels[i] = start;
            i += 1;
        }
        let mut cur = start;
        let ghost mut pos: int = s;
        let mut level: usize = NOTE_SKIP_LIST_LEVELS - 1;
        loop
            invariant
                self.wf(),
                c == self.chain(),
                0 <= s <= pos < c.len(),
                c[s] == start@,
                c[pos] == cur@,
                pos == s || behind(self.note_at(c[pos]).end_beat, target, inclusive),
                level < NOTE_SKIP_LIST_LEVELS,
                levels[0] == cur,
                forall|l: int| 0 <= l < NOTE_SKIP_LIST_LEVELS ==> {
                    let q = self.position(#[trigger] levels[l]@);
                    &&& s <= q <= pos
                    &&& c[q] == levels[l]@
                    &&& (q == s || behind(self.note_at(c[q]).end_beat, target, inclusive))
                    &&& ((l > level || q != pos) ==> match self.link_at(c[q], l) {
                        Some(t) => !behind(self.note_at(t).end_beat, target, inclusive),
                        None => true,
                    })
                },
            decreases c.len() - pos, level,
        {
            let node = node_arena_get(&self.nodes, cur.key());
            assert(self.links_ok(pos));
            match node.links[level] {
                Some(next) => {
                    assert(self.link_at(c[pos], level as int) == Some(next@));
                    let ghost j = choose|j: int| pos < j < c.len() && c[j] == next@;
                    let next_node = node_arena_get(&self.nodes, next.key());
                    let next_note = note_arena_get(&self.notes, next_node.val_slot_key.key());
                    if (if inclusive { next_note.end_beat <= target } else { next_note.end_beat < target }) {
                        proof { self.lemma_position(j); }
                        let ghost before = *levels;
                        assert(forall|l: int| 0 <= l < NOTE_SKIP_LIST_LEVELS ==> {
                            let q = self.position(#[trigger] before[l]@);
                            &&& s <= q <= pos
                            &&& c[q] == before[l]@
                            &&& (q == s || behind(self.note_at(c[q]).end_beat, target, inclusive))
                            &&& ((l > level || q != pos) ==> match self.link_at(c[q], l) {
                                Some(t) => !behind(self.note_at(t).end_beat, target, inclusive),
                                None => true,
                            })
                        }) by {
                            assert(forall|l: int| 0 <= l < NOTE_SKIP_LIST_LEVELS ==> before[l] == levels[l]);
                        }
                        let mut l: usize = 0;
                        while l <= level
                            invariant
                                0 <= l <= level + 1,
                                level < NOTE_SKIP_LIST_LEVELS,
                                forall|m: int| 0 <= m < l ==> levels[m] == next,
                                forall|m: int| l <= m < NOTE_SKIP_LIST_LEVELS ==> levels[m] == before[m],
                            decreases level + 1 - l,
                        {
                            levels[l] = next;
                            l += 1;
                        }
                        let ghost old_level = level;
                        cur = next;
                        proof { pos = j; }
                        level = NOTE_SKIP_LIST_LEVELS - 1;
                        assert(self.position(next@) == j);
                        assert(behind(self.note_at(c[j]).end_beat, target, inclusive));
                        assert forall|l: int| 0 <= l < NOTE_SKIP_LIST_LEVELS implies {
                            let q = self.position(#[trigger] levels[l]@);
                            &&& s <= q <= pos
                            &&& c[q] == levels[l]@
                            &&& (q == s || behind(self.note_at(c[q]).end_beat, target, inclusive))
                            &&& ((l > level || q != pos) ==> match self.link_at(c[q], l) {
                                Some(t) => !behind(self.note_at(t).end_beat, target, inclusive),
                                None => true,
                            })
                        } by {
                            if l > old_level {
                                assert(levels[l] == before[l]);
                            } else {
                                assert(levels[l] == next);
                            }
                        }
                        continue;
                    } else {
                        levels[level] = cur;
                        proof { self.lemma_position(pos); }
                    }
                },
                None => {},
            }
            proof { self.lemma_position(pos); }
            assert(forall|l: int| 0 <= l < NOTE_SKIP_LIST_LEVELS ==> {
                let q = self.position(#[trigger] levels[l]@);
                (l >= level || q != pos) ==> match self.link_at(c[q], l) {
                    Some(t) => !behind(self.note_at(t).end_beat, target, inclusive),
                    None => true,
                }
            });
            if level == 0 {
                assert(self.links_ok(pos));
                assert(self.position(levels[0]@) == pos);
                assert(pos + 1 < c.len() ==> self.link_at(c[pos], 0) == Some(c[pos + 1]));
                break;
            }
            level -= 1;
        }
    }

    proof fn lemma_note_before_pos(&self, i: int, note: NoteBox)
        requires
            self.wf(),
            0 <= i < self.chain().len(),
            note.start_beat <= note.end_beat,
            self.view()[i].disjoint(note),
            self.note_at(self.chain()[i]).end_beat > note.start_beat,
        ensures
            forall|j: int| i <= j < self.chain().len() ==> note.end_beat <= #[trigger] self.view()[j].start_beat,
    {
        let v = self.view();
        assert(v[i] == self.note_at(self.chain()[i]));
        assert forall|j: int| i <= j < self.chain().len() implies note.end_beat <= #[trigger] v[j].start_beat by {
            if i < j {
                assert(v[i].end_beat <= v[j].start_beat);
                assert(v[i].valid());
            }
        }
    }

    /// What an insertion changes outside the links: one new node and one new interval, the
    /// interval sharing no beat with any other.
    spec fn grown_from(&self, pre: NoteSkipList, note: NoteBox, nk: nat, pk: nat) -> bool {
        &&& pre.wf()
        &&& note.valid()
        &&& forall|i: int| 0 <= i < pre@.len() ==> (#[trigger] pre@[i]).disjoint(note)
        &&& !node_slots(pre.nodes).contains_key(nk as int)
        &&& !note_slots(pre.notes).contains_key(pk as int)
        &&& note_slots(self.notes) == note_slots(pre.notes).insert(pk as int, note)
        &&& node_slots(self.nodes).dom() == node_slots(pre.nodes).dom().insert(nk as int)
        &&& self.node_at(nk).val_slot_key@ == pk
        &&& forall|k: nat| #[trigger] node_slots(pre.nodes).contains_key(k as int) ==>
            self.node_at(k).val_slot_key == pre.node_at(k).val_slot_key
        &&& node_slots(self.nodes).dom().finite()
        &&& node_slots(self.nodes).dom().len() <= node_extent(self.nodes)
        &&& node_extent(self.nodes) < u32::MAX
        &&& note_slots(self.notes).dom().finite()
        &&& note_slots(self.notes).dom().len() <= note_extent(self.notes)
        &&& note_extent(self.notes) < u32::MAX
    }

    /// The parts of `wf` that do not concern links, for a chain `pre`'s with `nk` put in at
    /// position `q`.
    #[verifier::spinoff_prover]
    proof fn lemma_grown(&self, pre: NoteSkipList, note: NoteBox, nk: nat, pk: nat, q: int)
        requires
            self.grown_from(pre, note, nk, pk),
            0 <= q <= pre.chain().len(),
            self.chain() == pre.chain().insert(q, nk),
            self.head_key is Some,
            self.head_key->0@ == self.chain()[0],
            forall|i: int| 0 <= i < q ==> pre@[i].end_beat <= note.start_beat,
            forall|i: int| q <= i < pre@.len() ==> note.end_beat <= pre@[i].start_beat,
        ensures
            self.chain().no_duplicates(),
            forall|i: int| 0 <= i < self.chain().len() ==> node_slots(self.nodes).contains_key(#[trigger] self.chain()[i] as int),
            forall|i: int|
                0 <= i < self.chain().len() ==> note_slots(self.notes).contains_key(
                    self.node_at(#[trigger] self.chain()[i]).val_slot_key@ as int,
                ),
            self@ == pre@.insert(q, note),
            ordered(self@),
            self.arenas_fit(self.chain().len()),
            forall|i: int, j: int|
                0 <= i < self.chain().len() && 0 <= j < self.chain().len() && i != j ==> self.node_at(#[trigger] self.chain()[i]).val_slot_key@
                    != self.node_at(#[trigger] self.chain()[j]).val_slot_key@,
    {
        let c = pre.chain();
        let c2 = self.chain();
        assert forall|i: int| 0 <= i < c.len() implies #[trigger] c[i] != nk by {
            assert(node_slots(pre.nodes).contains_key(c[i] as int));
        }
        assert forall|i: int, j: int| 0 <= i < c2.len() && 0 <= j < c2.len() && i != j implies c2[i] != c2[j] by {
            if i < q && j < q { assert(c.no_duplicates()); } else if i < q && j > q {
                assert(c2[j] == c[j - 1]);
            } else if i > q && j < q {
                assert(c2[i] == c[i - 1]);
            } else if i > q && j > q {
                assert(c2[i] == c[i - 1]);
                assert(c2[j] == c[j - 1]);
            } else if i == q {
                if j < q { assert(c2[j] == c[j]); } else { assert(c2[j] == c[j - 1]); }
            } else {
                if i < q { assert(c2[i] == c[i]); } else { assert(c2[i] == c[i - 1]); }
            }
        }
        assert forall|i: int| 0 <= i < c.len() implies self.note_at(#[trigger] c[i]) == pre.note_at(c[i]) by {
            assert(node_slots(pre.nodes).contains_key(c[i] as int));
            assert(note_slots(pre.notes).contains_key(pre.node_at(c[i]).val_slot_key@ as int));
        }
        assert(self.note_at(nk) == note);
        assert(node_slots(self.nodes).dom().len() == c2.len());
        assert(note_slots(self.notes).dom().len() == c2.len());
        assert forall|i: int, j: int|
            0 <= i < c2.len() && 0 <= j < c2.len() && i != j implies self.node_at(#[trigger] c2[i]).val_slot_key@
                != self.node_at(#[trigger] c2[j]).val_slot_key@ by {
            let i0 = if i < q { i } else { i - 1 };
            let j0 = if j < q { j } else { j - 1 };
            if i != q {
                assert(c2[i] == c[i0]);
                assert(node_slots(pre.nodes).contains_key(c[i0] as int));
                assert(note_slots(pre.notes).contains_key(pre.node_at(c[i0]).val_slot_key@ as int));
            }
            if j != q {
                assert(c2[j] == c[j0]);
                assert(node_slots(pre.nodes).contains_key(c[j0] as int));
                assert(note_slots(pre.notes).contains_key(pre.node_at(c[j0]).val_slot_key@ as int));
            }
        }
        assert forall|i: int| 0 <= i < c2.len() implies node_slots(self.nodes).contains_key(#[trigger] c2[i] as int)
            && note_slots(self.notes).contains_key(self.node_at(c2[i]).val_slot_key@ as int) by {
            if i != q {
                let i0 = if i < q { i } else { i - 1 };
                assert(c2[i] == c[i0]);
                assert(node_slots(pre.nodes).contains_key(c[i0] as int));
                assert(note_slots(pre.notes).contains_key(pre.node_at(c[i0]).val_slot_key@ as int));
            }
        }
        assert(self@ =~= pre@.insert(q, note)) by {
            assert forall|i: int| 0 <= i < c2.len() implies self@[i] == pre@.insert(q, note)[i] by {
                if i < q { assert(c2[i] == c[i]); } else if i > q { assert(c2[i] == c[i - 1]); }
            }
        }
        let v = pre@;
        let v2 = self@;
        assert forall|i: int, j: int| 0 <= i < j < v2.len() implies (#[trigger] v2[i]).end_beat <= (#[trigger] v2[j]).start_beat by {
            if j < q {
                assert(v2[i] == v[i] && v2[j] == v[j]);
            } else if j == q {
                assert(v2[i] == v[i]);
            } else if i < q {
                assert(v2[i] == v[i] && v2[j] == v[j - 1]);
                assert(v[i].end_beat <= note.start_beat);
                assert(note.end_beat <= v[j - 1].start_beat);
            } else if i == q {
                assert(v2[j] == v[j - 1]);
            } else {
                assert(v2[i] == v[i - 1] && v2[j] == v[j - 1]);
            }
        }
        assert forall|i: int| 0 <= i < v2.len() implies #[trigger] v2[i].valid() by {
            if i < q { assert(v2[i] == v[i]); } else if i > q { assert(v2[i] == v[i - 1]); }
        }
    }

    #[verifier::spinoff_prover]
    proof fn lemma_head_links(&self, pre: NoteSkipList, level: int, h: nat, nk: nat)
        requires
            pre.wf(),
            pre.chain().len() > 0,
            pre.chain()[0] == h,
            0 <= level < NOTE_SKIP_LIST_LEVELS,
            self.chain() == pre.chain().insert(0, nk),
            !node_slots(pre.nodes).contains_key(nk as int),
            forall|m: int| 0 <= m < NOTE_SKIP_LIST_LEVELS ==> #[trigger] self.link_at(nk, m) == (if m <= level { Some(h) } else { pre.link_at(h, m) }),
            forall|m: int| 0 <= m < NOTE_SKIP_LIST_LEVELS ==> #[trigger] self.link_at(h, m) == (if m > level { None } else { pre.link_at(h, m) }),
            forall|k: nat, m: int| #[trigger] node_slots(pre.nodes).contains_key(k as int) && k != h && 0 <= m < NOTE_SKIP_LIST_LEVELS ==> #[trigger] self.link_at(k, m) == pre.link_at(k, m),
        ensures
            forall|i: int| 0 <= i < self.chain().len() ==> #[trigger] self.links_ok(i),
    {
        let c = pre.chain();
        let c2 = self.chain();
        assert forall|i: int| 0 <= i < c2.len() implies #[trigger] self.links_ok(i) by {
            if i == 0 {
                assert(pre.links_ok(0));
                assert(c2[1] == h);
                assert forall|l: int| 0 <= l < NOTE_SKIP_LIST_LEVELS implies match #[trigger] self.link_at(c2[i], l) {
                    Some(t) => self.after(i, t),
                    None => true,
                } by {
                    if l > level {
                        if let Some(t) = pre.link_at(h, l) {
                            lemma_follows_insert(c, 0, nk, 0, t);
                        }
                    }
                }
            } else {
                let k = c[i - 1];
                assert(c2[i] == k);
                assert(pre.links_ok(i - 1));
                assert(node_slots(pre.nodes).contains_key(k as int));
                if i + 1 < c2.len() {
                    assert(c2[i + 1] == c[i]);
                }
                if i > 1 {
                    assert(c.no_duplicates() && c[0] == h && k != h);
                }
                assert forall|l: int| 0 <= l < NOTE_SKIP_LIST_LEVELS implies match #[trigger] self.link_at(c2[i], l) {
                    Some(t) => self.after(i, t),
                    None => true,
                } by {
                    if let Some(t) = pre.link_at(k, l) {
                        lemma_follows_insert(c, 0, nk, i - 1, t);
                    }
                }
            }
        }
    }

    #[verifier::spinoff_prover]
    proof fn lemma_splice_links(&self, pre: NoteSkipList, level: int, preds: [SlabKey<NoteSkipListNode>; NOTE_SKIP_LIST_LEVELS], p: int, nk: nat)
        requires
            pre.wf(),
            0 <= p < pre.chain().len(),
            0 <= level < NOTE_SKIP_LIST_LEVELS,
            self.chain() == pre.chain().insert(p + 1, nk),
            !node_slots(pre.nodes).contains_key(nk as int),
            preds[0]@ == pre.chain()[p],
            forall|l: int| 0 <= l < NOTE_SKIP_LIST_LEVELS ==> {
                let q = pre.position(#[trigger] preds[l]@);
                0 <= q <= p && pre.chain()[q] == preds[l]@
            },
            forall|l: int| 0 <= l <= level ==> match #[trigger] pre.link_at(preds[l]@, l) {
                Some(t) => follows(pre.chain(), p, t),
                None => true,
            },
            forall|m: int| 0 <= m < NOTE_SKIP_LIST_LEVELS ==> #[trigger] self.link_at(nk, m) == (if m <= level { pre.link_at(preds[m]@, m) } else { None }),
            forall|k: nat, m: int| #[trigger] node_slots(pre.nodes).contains_key(k as int) && 0 <= m < NOTE_SKIP_LIST_LEVELS ==> #[trigger] self.link_at(k, m) == (if m <= level && preds[m]@ == k { Some(nk) } else { pre.link_at(k, m) }),
        ensures
            forall|i: int| 0 <= i < self.chain().len() ==> #[trigger] self.links_ok(i),
    {
        let c = pre.chain();
        let c2 = self.chain();
        assert forall|i: int| 0 <= i < c2.len() implies #[trigger] self.links_ok(i) by {
            if i < p + 1 {
                let k = c[i];
                assert(c2[i] == k);
                assert(pre.links_ok(i));
                assert(node_slots(pre.nodes).contains_key(k as int));
                assert(c2[p + 1] == nk);
                if i < p {
                    assert(c2[i + 1] == c[i + 1]);
                    assert(c.no_duplicates());
                    assert(preds[0]@ != k);
                }
                assert forall|l: int| 0 <= l < NOTE_SKIP_LIST_LEVELS implies match #[trigger] self.link_at(c2[i], l) {
                    Some(t) => self.after(i, t),
                    None => true,
                } by {
                    if l <= level && preds[l]@ == k {
                    } else if let Some(t) = pre.link_at(k, l) {
                        lemma_follows_insert(c, p + 1, nk, i, t);
                    }
                }
            } else if i == p + 1 {
                assert(pre.links_ok(p));
                if p + 1 < c.len() {
                    assert(c2[p + 2] == c[p + 1]);
                }
                assert forall|l: int| 0 <= l < NOTE_SKIP_LIST_LEVELS implies match #[trigger] self.link_at(c2[i], l) {
                    Some(t) => self.after(i, t),
                    None => true,
                } by {
                    if l <= level {
                        if let Some(t) = pre.link_at(preds[l]@, l) {
                            let j = choose|j: int| p < j < c.len() && c[j] == t;
                            assert(c2[j + 1] == t);
                        }
                    }
                }
            } else {
                let k = c[i - 1];
                assert(c2[i] == k);
                assert(pre.links_ok(i - 1));
                assert(node_slots(pre.nodes).contains_key(k as int));
                if i + 1 < c2.len() {
                    assert(c2[i + 1] == c[i]);
                }
                assert forall|m: int| 0 <= m < NOTE_SKIP_LIST_LEVELS implies preds[m]@ != k by {
                    let q = pre.position(preds[m]@);
                    assert(c.no_duplicates());
                    assert(c[q] == preds[m]@);
                }
                assert forall|l: int| 0 <= l < NOTE_SKIP_LIST_LEVELS implies match #[trigger] self.link_at(c2[i], l) {
                    Some(t) => self.after(i, t),
                    None => true,
                } by {
                    if let Some(t) = pre.link_at(k, l) {
                        lemma_follows_insert(c, p + 1, nk, i - 1, t);
                    }
                }
            }
        }
    }

    /// Inserts `note` with a node of level `level`: the node joins the chains of levels
    /// `0..=level` and keeps every level ordered.
    ///
    /// The interval must not overlap any interval already in the list (touching ends are
    /// allowed).
    #[verifier::loop_isolation(false)]
    #[verifier::spinoff_prover]
    #[verifier::rlimit(60)]
    pub fn insert_at_level(&mut self, note: NoteBox, level: usize)
        requires
            old(self).wf(),
            level < NOTE_SKIP_LIST_LEVELS,
            note.valid(),
            forall|i: int| 0 <= i < old(self)@.len() ==> (#[trigger] old(self)@[i]).disjoint(note),
            old(self)@.len() + 1 < u32::MAX,
        ensures
            final(self).wf(),
            ordered(final(self)@),
            exists|q: int| 0 <= q <= old(self)@.len() && final(self)@ == old(self)@.insert(q, note),
            final(self)@.to_multiset() == old(self)@.to_multiset().insert(note),
            final(self).generator() == old(self).generator(),
            inserted(*old(self), *final(self), note, level as int),
    {
        let ghost pre = *self;
        let ghost c = self.chain();
        let ghost v = self@;
        match self.head_key {
            None => {
                let pk = note_arena_insert(&mut self.notes, note);
                let val_key = SlabKey::from_key(pk);
                let nk = node_arena_insert(&mut self.nodes, NoteSkipListNode { val_slot_key: val_key, links: blank_shortcuts() });
                let new_key = SlabKey::from_key(nk);
                self.head_key = Some(new_key);
                let ghost nc = seq![nk as nat];
                self.chain = Ghost(nc);
                assert(self.links_ok(0));
                assert(self@ =~= v.insert(0, note));
                proof {
                    assert(gained_payload(pre, *self, pk as int, note));
                    assert(self.node_records().dom() =~= pre.node_records().dom().insert(nk as int));
                    assert(gained_node(pre, *self, nk as nat));
                    assert(inserted_into_empty(*self, nk as nat));
                }
            },
            Some(h) => {
                proof { self.lemma_position(0); }
                let head_node = node_arena_get(&self.nodes, h.key());
                let head_note = note_arena_get(&self.notes, head_node.val_slot_key.key());
                assert(head_note == v[0]);
                if head_note.end_beat > note.start_beat {
                    proof { self.lemma_note_before_pos(0, note); }
                    let pk = note_arena_insert(&mut self.notes, note);
                    let val_key = SlabKey::from_key(pk);
                    let nk = node_arena_insert(&mut self.nodes, NoteSkipListNode { val_slot_key: val_key, links: blank_shortcuts() });
                    let new_key = SlabKey::from_key(nk);
                    let mut new_node = NoteSkipListNode { val_slot_key: val_key, links: blank_shortcuts() };
                    let mut old_head = head_node;
                    let mut l: usize = 0;
                    while l < NOTE_SKIP_LIST_LEVELS
                        invariant
                            l <= NOTE_SKIP_LIST_LEVELS,
                            new_node.val_slot_key == val_key,
                            old_head.val_slot_key == head_node.val_slot_key,
                            forall|m: int| 0 <= m < l ==> new_node.links[m] == (if m <= level { Some(h) } else { head_node.links[m] }),
                            forall|m: int| 0 <= m < NOTE_SKIP_LIST_LEVELS ==> old_head.links[m] == (if m < l && m > level { None } else { head_node.links[m] }),
                        decreases NOTE_SKIP_LIST_LEVELS - l,
                    {
                        if l <= level {
                            new_node.links[l] = Some(h);
                        } else {
                            new_node.links[l] = old_head.links[l];
                            old_head.links[l] = None;
                        }
                        l += 1;
                    }
                    node_arena_set(&mut self.nodes, nk, new_node);
                    node_arena_set(&mut self.nodes, h.key(), old_head);
                    self.head_key = Some(new_key);
                    let ghost nc = c.insert(0, nk as nat);
                    self.chain = Ghost(nc);
                    proof {
                        assert(node_slots(self.nodes) =~= node_slots(pre.nodes).insert(nk as int, new_node).insert(h@ as int, old_head));
                        assert forall|k: nat| #[trigger] node_slots(pre.nodes).contains_key(k as int) implies
                            self.node_at(k).val_slot_key == pre.node_at(k).val_slot_key by {}
                        assert(node_slots(self.nodes).dom() =~= node_slots(pre.nodes).dom().insert(nk as int));
                        assert(self.grown_from(pre, note, nk as nat, pk as nat));
                        self.lemma_grown(pre, note, nk as nat, pk as nat, 0);
                        assert forall|m: int| 0 <= m < NOTE_SKIP_LIST_LEVELS implies #[trigger] self.link_at(nk as nat, m) == (if m <= level { Some(h@) } else { pre.link_at(h@, m) }) by {}
                        assert forall|m: int| 0 <= m < NOTE_SKIP_LIST_LEVELS implies #[trigger] self.link_at(h@, m) == (if m > level { None } else { pre.link_at(h@, m) }) by {}
                        self.lemma_head_links(pre, level as int, h@, nk as nat);
                        assert(gained_payload(pre, *self, pk as int, note));
                        assert(self.node_records().dom() =~= pre.node_records().dom().insert(nk as int));
                        assert(gained_node(pre, *self, nk as nat));
                        assert forall|i: int, l: int| 1 <= i < c.len() && 0 <= l < NOTE_SKIP_LIST_LEVELS
                            implies #[trigger] self.link_at(c[i], l) == pre.link_at(c[i], l) by {
                            assert(node_slots(pre.nodes).contains_key(c[i] as int));
                            assert(c.no_duplicates());
                        }
                        assert(inserted_as_head(pre, *self, level as int, nk as nat));
                        assert(self.wf());
                        assert(self@ == v.insert(0, note));
                    }
                } else {
                    let mut preds = [h, h, h, h, h];
                    self.search_by(h, note.start_beat, true, &mut preds);
                    let ghost p = self.position(preds[0]@);
                    proof {
                        if p + 1 < c.len() {
                            self.lemma_note_before_pos(p + 1, note);
                        }
                        self.lemma_ends_grow(0, p);
                    }
                    let pk = note_arena_insert(&mut self.notes, note);
                    let val_key = SlabKey::from_key(pk);
                    let nk = node_arena_insert(&mut self.nodes, NoteSkipListNode { val_slot_key: val_key, links: blank_shortcuts() });
                    let new_key = SlabKey::from_key(nk);
                    let ghost n0 = node_slots(self.nodes);
                    let mut new_node = NoteSkipListNode { val_slot_key: val_key, links: blank_shortcuts() };
                    let mut l: usize = 0;
                    while l <= level
                        invariant
                            l <= level + 1,
                            level < NOTE_SKIP_LIST_LEVELS,
                            note_slots(self.notes) == note_slots(pre.notes).insert(pk as int, note),
                            node_slots(self.nodes).dom() == n0.dom(),
                            node_slots(self.nodes).dom().finite(),
                            node_slots(self.nodes).dom().len() <= node_extent(self.nodes),
                            node_extent(self.nodes) < u32::MAX,
                            note_slots(self.notes).dom().finite(),
                            note_slots(self.notes).dom().len() <= note_extent(self.notes),
                            note_extent(self.notes) < u32::MAX,
                            self.head_key == pre.head_key,
                            self.chain == pre.chain,
                            self.level_gen == pre.level_gen,
                            new_node.val_slot_key == val_key,
                            forall|m: int| 0 <= m < NOTE_SKIP_LIST_LEVELS ==> new_node.links[m] == (if m < l { n0[preds[m]@ as int].links[m] } else { None }),
                            forall|k: int| #[trigger] n0.contains_key(k) && k != nk ==> {
                                &&& node_slots(self.nodes)[k].val_slot_key == n0[k].val_slot_key
                                &&& forall|m: int| 0 <= m < NOTE_SKIP_LIST_LEVELS ==> #[trigger] node_slots(self.nodes)[k].links[m] == (if m < l && preds[m]@ == k { Some(new_key) } else { n0[k].links[m] })
                            },
                        decreases level + 1 - l,
                    {
                        let pred = preds[l];
                        proof {
                            let q = pre.position(preds[l as int]@);
                            assert(c[q] == preds[l as int]@);
                            assert(node_slots(pre.nodes).contains_key(c[q] as int));
                        }
                        let ghost cur_nodes = node_slots(self.nodes);
                        let mut pn = node_arena_get(&self.nodes, pred.key());
                        assert(n0.contains_key(pred@ as int) && pred@ != nk);
                        assert(cur_nodes[pred@ as int].links[l as int] == n0[pred@ as int].links[l as int]);
                        new_node.links[l] = pn.links[l];
                        pn.links[l] = Some(new_key);
                        node_arena_set(&mut self.nodes, pred.key(), pn);
                        proof {
                            assert forall|k: int| #[trigger] n0.contains_key(k) && k != nk implies {
                                &&& node_slots(self.nodes)[k].val_slot_key == n0[k].val_slot_key
                                &&& forall|m: int| 0 <= m < NOTE_SKIP_LIST_LEVELS ==> #[trigger] node_slots(self.nodes)[k].links[m] == (if m < l + 1 && preds[m]@ == k { Some(new_key) } else { n0[k].links[m] })
                            } by {
                                assert(cur_nodes[k].val_slot_key == n0[k].val_slot_key);
                                assert forall|m: int| 0 <= m < NOTE_SKIP_LIST_LEVELS implies #[trigger] node_slots(self.nodes)[k].links[m] == (if m < l + 1 && preds[m]@ == k { Some(new_key) } else { n0[k].links[m] }) by {
                                    assert(cur_nodes[k].links[m] == (if m < l && preds[m]@ == k { Some(new_key) } else { n0[k].links[m] }));
                                }
                            }
                        }
                        l += 1;
                    }
                    let ghost n_last = node_slots(self.nodes);
                    node_arena_set(&mut self.nodes, nk, new_node);
                    let ghost nc = c.insert(p + 1, nk as nat);
                    self.chain = Ghost(nc);
                    proof {
                        let target = note.start_beat;
                        assert(pre.note_at(c[p]).end_beat <= target) by {
                            if p == 0 {
                                assert(v[0] == pre.note_at(c[0]));
                                assert(head_note.end_beat <= note.start_beat);
                            }
                        }
                        assert forall|l: int| 0 <= l <= level implies match #[trigger] pre.link_at(preds[l]@, l) {
                            Some(t) => follows(c, p, t),
                            None => true,
                        } by {
                            let q = pre.position(preds[l]@);
                            assert(pre.links_ok(q));
                            if let Some(t) = pre.link_at(preds[l]@, l) {
                                let j = choose|j: int| q < j < c.len() && c[j] == t;
                                if j <= p {
                                    pre.lemma_ends_grow(j, p);
                                }
                            }
                        }
                        assert forall|i: int| 0 <= i < p + 1 implies pre@[i].end_beat <= note.start_beat by {
                            pre.lemma_ends_grow(i, p);
                        }
                        assert(node_slots(self.nodes) =~= n_last.insert(nk as int, new_node));
                        assert forall|k: nat| #[trigger] node_slots(pre.nodes).contains_key(k as int) implies
                            self.node_at(k).val_slot_key == pre.node_at(k).val_slot_key by {
                            assert(n0.contains_key(k as int));
                        }
                        assert(node_slots(self.nodes).dom() =~= node_slots(pre.nodes).dom().insert(nk as int));
                        assert(self.grown_from(pre, note, nk as nat, pk as nat));
                        self.lemma_grown(pre, note, nk as nat, pk as nat, p + 1);
                        assert forall|m: int| 0 <= m < NOTE_SKIP_LIST_LEVELS implies #[trigger] self.link_at(nk as nat, m) == (if m <= level { pre.link_at(preds[m]@, m) } else { None }) by {
                            if m <= level {
                                let q = pre.position(preds[m]@);
                                assert(node_slots(pre.nodes).contains_key(c[q] as int));
                            }
                        }
                        assert forall|k: nat, m: int| #[trigger] node_slots(pre.nodes).contains_key(k as int) && 0 <= m < NOTE_SKIP_LIST_LEVELS implies #[trigger] self.link_at(k, m) == (if m <= level && preds[m]@ == k { Some(nk as nat) } else { pre.link_at(k, m) }) by {
                            assert(n0.contains_key(k as int));
                            assert(n_last[k as int].links[m] == (if m < level + 1 && preds[m]@ == k { Some(new_key) } else { n0[k as int].links[m] }));
                        }
                        self.lemma_splice_links(pre, level as int, preds, p, nk as nat);
                        assert(gained_payload(pre, *self, pk as int, note));
                        assert(self.node_records().dom() =~= pre.node_records().dom().insert(nk as int));
                        assert(gained_node(pre, *self, nk as nat));
                        let ps = preds@.map_values(|k: SlabKey<NoteSkipListNode>| k@);
                        assert(pre.search_found(c[0], note.start_beat, true, ps));
                        assert forall|i: int, l: int| 0 <= i < c.len() && 0 <= l < NOTE_SKIP_LIST_LEVELS
                            implies #[trigger] self.link_at(c[i], l) == (if l <= level && ps[l] == c[i] { Some(nk as nat) } else { pre.link_at(c[i], l) }) by {
                            assert(node_slots(pre.nodes).contains_key(c[i] as int));
                        }
                        assert(spliced_after(pre, *self, level as int, nk as nat, ps));
                        assert(self.wf());
                    }
                }
            },
        }
        proof {
            let q = choose|q: int| 0 <= q <= v.len() && self@ == v.insert(q, note);
            to_multiset_insert(v, q, note);
        }
    }

    /// Two lists with the same arenas, head and chain agree on everything but their levels'
    /// generator.
    proof fn lemma_same_structure(a: NoteSkipList, b: NoteSkipList)
        requires
            a.wf(),
            a.notes == b.notes,
            a.nodes == b.nodes,
            a.chain == b.chain,
            a.head_key == b.head_key,
        ensures
            b.wf(),
            b@ == a@,
    {
        assert(b@ =~= a@);
        assert forall|i: int| 0 <= i < b.chain().len() implies #[trigger] b.links_ok(i) by {
            assert(a.links_ok(i));
            let k = b.chain()[i];
            assert forall|l: int| 0 <= l < NOTE_SKIP_LIST_LEVELS implies match #[trigger] b.link_at(k, l) {
                Some(t) => b.after(i, t),
                None => true,
            } by {
                assert(a.link_at(k, l) == b.link_at(k, l));
            }
            assert(a.link_at(k, 0) == b.link_at(k, 0));
        }
    }

    /// Inserts `note`. Into an empty list the node goes as the head with no links and no
    /// level is drawn; otherwise the level of its node is drawn from the list's generator.
    ///
    /// The interval must not overlap any interval already in the list (touching ends are
    /// allowed).
    pub fn insert(&mut self, note: NoteBox)
        requires
            old(self).wf(),
            note.valid(),
            forall|i: int| 0 <= i < old(self)@.len() ==> (#[trigger] old(self)@[i]).disjoint(note),
            old(self)@.len() + 1 < u32::MAX,
        ensures
            final(self).wf(),
            ordered(final(self)@),
            exists|q: int| 0 <= q <= old(self)@.len() && final(self)@ == old(self)@.insert(q, note),
            final(self)@.to_multiset() == old(self)@.to_multiset().insert(note),
            old(self)@.len() == 0 ==> final(self).generator() == old(self).generator(),
            exists|level: int| 0 <= level < NOTE_SKIP_LIST_LEVELS && #[trigger] inserted(*old(self), *final(self), note, level),
    {
        if self.head_key.is_none() {
            self.insert_at_level(note, 0);
            return;
        }
        let ghost pre = *self;
        assert(pre.wf());
        let level = self.level_gen.next_level();
        let ghost mid = *self;
        proof { NoteSkipList::lemma_same_structure(pre, *self); }
        self.insert_at_level(note, level);
        proof { NoteSkipList::lemma_inserted_same_structure(mid, pre, *self, note, level as int); }
    }

    /// Insertion facts about a list carry over to a list that differs from it only in its
    /// level generator.
    proof fn lemma_inserted_same_structure(a: NoteSkipList, b: NoteSkipList, n: NoteSkipList, note: NoteBox, level: int)
        requires
            a.notes == b.notes,
            a.nodes == b.nodes,
            a.chain == b.chain,
            a.head_key == b.head_key,
            inserted(a, n, note, level),
        ensures
            inserted(b, n, note, level),
    {
        assert(a.payloads() == b.payloads());
        assert(a.node_records() == b.node_records());
        assert(a.chain() == b.chain());
        assert forall|k: nat, l: int| a.link_at(k, l) == b.link_at(k, l) by {}
        assert forall|k: nat| a.note_at(k) == b.note_at(k) by {}
        assert forall|k: nat| a.position(k) == b.position(k) by {}
        let pk = choose|pk: int| #[trigger] gained_payload(a, n, pk, note);
        assert(gained_payload(b, n, pk, note));
        let nk = choose|nk: nat| #[trigger] gained_node(a, n, nk) && n.note_at(nk) == note && {
            &&& (a.chain().len() == 0 ==> inserted_into_empty(n, nk))
            &&& (a.chain().len() > 0 && a.note_at(a.chain()[0]).end_beat > note.start_beat
                ==> inserted_as_head(a, n, level, nk))
            &&& (a.chain().len() > 0 && a.note_at(a.chain()[0]).end_beat <= note.start_beat
                ==> exists|preds: Seq<nat>| a.search_found(a.chain()[0], note.start_beat, true, preds)
                    && #[trigger] spliced_after(a, n, level, nk, preds))
        };
        assert(gained_node(b, n, nk));
        if a.chain().len() > 0 && a.note_at(a.chain()[0]).end_beat > note.start_beat {
            assert(inserted_as_head(b, n, level, nk));
        }
        if a.chain().len() > 0 && a.note_at(a.chain()[0]).end_beat <= note.start_beat {
            let preds = choose|preds: Seq<nat>| a.search_found(a.chain()[0], note.start_beat, true, preds)
                && #[trigger] spliced_after(a, n, level, nk, preds);
            assert(b.search_found(b.chain()[0], note.start_beat, true, preds));
            assert(spliced_after(b, n, level, nk, preds));
        }
    }

    /// The number of intervals in the list.
    pub fn len(&self) -> (r: usize)
        requires
            self.wf(),
        ensures
            r == self@.len(),
    {
        self.chain_nodes().len()
    }

    /// The intervals in order.
    pub fn iter(&self) -> (r: NoteSkipListIterator)
        requires
            self.wf(),
        ensures
            r.wf(),
            r.remaining() == self@,
    {
        let nodes = self.chain_nodes();
        let mut out: Vec<NoteBox> = Vec::new();
        let mut i: usize = 0;
        while i < nodes.len()
            invariant
                i <= nodes@.len(),
                nodes@.len() == self@.len(),
                forall|j: int| 0 <= j < nodes@.len() ==> nodes@[j] == self.node_at(self.chain()[j]),
                out@ == self@.subrange(0, i as int),
                self.wf(),
            decreases nodes@.len() - i,
        {
            let node = nodes[i];
            assert(note_slots(self.notes).contains_key(self.node_at(self.chain()[i as int]).val_slot_key@ as int));
            out.push(note_arena_get(&self.notes, node.val_slot_key.key()));
            i += 1;
            assert(out@ =~= self@.subrange(0, i as int));
        }
        let r = NoteSkipListIterator { items: out, next: 0 };
        assert(r.remaining() =~= self@);
        r
    }

    /// The nodes in level-0 order.
    pub fn iter_nodes(&self) -> (r: NoteSkipListNodeIterator)
        requires
            self.wf(),
        ensures
            r.wf(),
            r.remaining().len() == self.chain().len(),
            forall|j: int| 0 <= j < r.remaining().len() ==> r.remaining()[j] == self.node_at(self.chain()[j]),
    {
        let nodes = self.chain_nodes();
        let r = NoteSkipListNodeIterator { nodes, next: 0 };
        assert(r.remaining() =~= r.nodes@);
        r
    }

    fn chain_nodes(&self) -> (r: Vec<NoteSkipListNode>)
        requires
            self.wf(),
        ensures
            r@.len() == self.chain().len(),
            forall|j: int| 0 <= j < r@.len() ==> r@[j] == self.node_at(self.chain()[j]),
    {
        let ghost c = self.chain();
        let mut out: Vec<NoteSkipListNode> = Vec::new();
        let mut cur = self.head_key;
        let ghost mut i: int = 0;
        while cur.is_some()
            invariant
                self.wf(),
                0 <= i <= c.len(),
                c == self.chain(),
                out@.len() == i,
                forall|j: int| 0 <= j < i ==> out@[j] == self.node_at(c[j]),
                cur is None ==> i == c.len(),
                cur matches Some(k) ==> i < c.len() && k@ == c[i],
            decreases c.len() - i,
        {
            let k = cur.unwrap();
            assert(self.links_ok(i));
            let node = node_arena_get(&self.nodes, k.key());
            out.push(node);
            cur = node.links[0];
            proof { i = i + 1; }
        }
        out
    }
}

impl NoteSkipList {
    /// The free span around `beat` (see `is_gap_answer`).
    #[verifier::spinoff_prover]
    pub fn bounds_around(&self, beat: u64) -> (r: Option<(u64, Option<u64>)>)
        requires
            self.wf(),
        ensures
            is_gap_answer(self@, beat, r),
    {
        let ghost c = self.chain();
        let ghost v = self@;
        let h = match self.head_key {
            Some(h) => h,
            None => {
                let pair: (u64, Option<u64>) = (0, None);
                assert(gap_split(v, beat, 0, pair.0, pair.1));
                return Some(pair);
            },
        };
        proof { self.lemma_position(0); }
        let head_node = node_arena_get(&self.nodes, h.key());
        let head_note = note_arena_get(&self.notes, head_node.val_slot_key.key());
        assert(head_note == v[0]);
        if head_note.contains_beat(beat) {
            return None;
        } else if head_note.start_beat > beat {
            proof {
                assert forall|i: int| 0 <= i < v.len() implies beat < (#[trigger] v[i]).start_beat by {
                    if i > 0 {
                        assert(v[0].end_beat <= v[i].start_beat);
                        assert(v[0].valid());
                    }
                }
            }
            let pair: (u64, Option<u64>) = (0, Some(head_note.start_beat));
            assert(gap_split(v, beat, 0, pair.0, pair.1));
            return Some(pair);
        }
        let mut preds = [h, h, h, h, h];
        self.search(h, beat, &mut preds);
        let ghost p = self.position(preds[0]@);
        let pred_node = node_arena_get(&self.nodes, preds[0].key());
        let pred_note = note_arena_get(&self.notes, pred_node.val_slot_key.key());
        assert(pred_note == v[p]);
        assert(pred_note.end_beat < beat) by {
            if p == 0 { assert(v[0].valid()); }
        }
        assert(self.links_ok(p));
        assert forall|i: int| 0 <= i <= p implies (#[trigger] v[i]).end_beat < beat by {
            self.lemma_ends_grow(i, p);
        }
        match pred_node.links[0] {
            None => {
                assert(p + 1 == v.len());
                let pair: (u64, Option<u64>) = (pred_note.end_beat, None);
                assert(gap_split(v, beat, p + 1, pair.0, pair.1));
                Some(pair)
            },
            Some(next) => {
                assert(next@ == c[p + 1]);
                let next_node = node_arena_get(&self.nodes, next.key());
                let next_note = note_arena_get(&self.notes, next_node.val_slot_key.key());
                assert(next_note == v[p + 1]);
                if next_note.contains_beat(beat) {
                    return None;
                }
                proof {
                    assert(next_note.end_beat >= beat);
                    assert(beat < next_note.start_beat);
                    assert forall|i: int| p + 1 <= i < v.len() implies beat < (#[trigger] v[i]).start_beat by {
                        if i > p + 1 {
                            assert(v[p + 1].end_beat <= v[i].start_beat);
                            assert(v[p + 1].valid());
                        }
                    }
                    assert(v[(p + 1) - 1] == pred_note);
                }
                let pair: (u64, Option<u64>) = (pred_note.end_beat, Some(next_note.start_beat));
                assert(gap_split(v, beat, p + 1, pair.0, pair.1));
                Some(pair)
            },
        }
    }
}

/// The decimal digits of `n`.
pub open spec fn decimal_digits(n: nat) -> Seq<char>
    decreases n,
{
    let digit = seq!['0', '1', '2', '3', '4', '5', '6', '7', '8', '9'][(n % 10) as int];
    if n < 10 {
        seq![digit]
    } else {
        decimal_digits(n / 10).push(digit)
    }
}

/// Relies on `ToString::to_string` for `u64`: its decimal digits, with no sign or padding.
#[verifier::external_body]
fn decimal_string(n: u64) -> (r: String)
    ensures
        r@ == decimal_digits(n as nat),
{
    n.to_string()
}

/// How an interval is written in a rendering: `|start, end|`.
pub open spec fn label_of(n: NoteBox) -> Seq<char> {
    seq!['|'] + decimal_digits(n.start_beat as nat) + seq![',', ' '] + decimal_digits(n.end_beat as nat) + seq!['|']
}

/// `n` dashes.
pub open spec fn dashes(n: nat) -> Seq<char> {
    Seq::new(n, |i: int| '-')
}

/// Whether the cell of a node on level `l` ends in an arrowhead: the node is the last one,
/// or its link on level `l` is its level-0 link, or it has no link on level `l` and the
/// level's pending shortcut lands on its level-0 successor.
pub open spec fn has_next_at(node: NoteSkipListNode, l: int, cursor: Option<nat>) -> bool {
    match (link_slot(node.links[0]), link_slot(node.links[l])) {
        (None, _) => true,
        (Some(n0), Some(nl)) => n0 == nl,
        (Some(n0), None) => cursor == Some(n0),
    }
}

/// The text of one node on one level: its label and a dash when the level's cursor stands
/// on it, `width + 1` dashes otherwise, then an arrowhead or a dash.
pub open spec fn cell(label: Seq<char>, shown: bool, has_next: bool, width: nat) -> Seq<char> {
    (if shown { label.push('-') } else { dashes(width + 1) }).push(if has_next { '>' } else { '-' })
}

/// A level's cursor after node slot `k` is drawn: the node's own link on that level when
/// the cursor stood on it, else unchanged.
pub open spec fn cursor_step(k: nat, node: NoteSkipListNode, l: int, cursor: Option<nat>) -> Option<nat> {
    if cursor == Some(k) { link_slot(node.links[l]) } else { cursor }
}

/// The cell of node slot `k` on level `l` with the level's cursor at `cursor`.
pub open spec fn node_cell(label: Seq<char>, k: nat, node: NoteSkipListNode, l: int, cursor: Option<nat>, width: nat) -> Seq<char> {
    cell(label, cursor == Some(k), has_next_at(node, l, cursor), width)
}

/// The width of a node's cells: its label's when some level's cursor stands on it, else 0.
pub open spec fn node_width(label: Seq<char>, k: nat, cursors: Seq<Option<nat>>) -> nat {
    if exists|l: int| 0 <= l < NOTE_SKIP_LIST_LEVELS && cursors[l] == Some(k) { label.len() } else { 0 }
}

/// The first `m` rows of a node's rendering, top level first, separated by newlines.
pub open spec fn node_rows(label: Seq<char>, k: nat, node: NoteSkipListNode, cursors: Seq<Option<nat>>, m: nat) -> Seq<char>
    decreases m,
{
    if m == 0 {
        Seq::empty()
    } else {
        let l = NOTE_SKIP_LIST_LEVELS - m;
        let row = node_cell(label, k, node, l, cursors[l], node_width(label, k, cursors));
        if m == 1 {
            row
        } else {
            node_rows(label, k, node, cursors, (m - 1) as nat).push('\n') + row
        }
    }
}

/// The cursors of an array of handles, as slots.
pub open spec fn cursor_slots(cursors: [Option<SlabKey<NoteSkipListNode>>; NOTE_SKIP_LIST_LEVELS]) -> Seq<Option<nat>> {
    cursors@.map_values(|c: Option<SlabKey<NoteSkipListNode>>| link_slot(c))
}

impl NoteBox {
    /// The interval written as `|start, end|`.
    pub fn label(&self) -> (r: String)
        ensures
            r@ == label_of(*self),
    {
        let mut s = String::new();
        s.append("|");
        let a = decimal_string(self.start_beat);
        s.append(a.as_str());
        s.append(", ");
        let b = decimal_string(self.end_beat);
        s.append(b.as_str());
        s.append("|");
        proof {
            reveal_strlit("|");
            reveal_strlit(", ");
            assert(s@ =~= label_of(*self));
        }
        s
    }
}

/// Appends `n` dashes to `s`.
fn push_dashes(s: &mut String, n: usize)
    ensures
        final(s)@ == old(s)@ + dashes(n as nat),
{
    let mut i: usize = 0;
    proof { reveal_strlit("-"); }
    while i < n
        invariant
            i <= n,
            s@ == old(s)@ + dashes(i as nat),
        decreases n - i,
    {
        proof { reveal_strlit("-"); }
        s.append("-");
        i += 1;
        assert(s@ =~= old(s)@ + dashes(i as nat));
    }
}

/// Appends to `s` the cell of node slot `key` on level `level` and moves the level's cursor
/// past the node when it stood on it.
fn push_cell(s: &mut String, label: &String, width: usize, key: SlabKey<NoteSkipListNode>, node: &NoteSkipListNode, level: usize, cursor: &mut Option<SlabKey<NoteSkipListNode>>)
    requires
        level < NOTE_SKIP_LIST_LEVELS,
    ensures
        final(s)@ == old(s)@ + node_cell(label@, key@, *node, level as int, link_slot(*old(cursor)), width as nat),
        link_slot(*final(cursor)) == cursor_step(key@, *node, level as int, link_slot(*old(cursor))),
{
    let shown = match *cursor {
        Some(c) => c.key() == key.key(),
        None => false,
    };
    let has_next = match (node.links[0], node.links[level]) {
        (None, _) => true,
        (Some(n0), Some(nl)) => n0.key() == nl.key(),
        (Some(n0), None) => match *cursor {
            Some(c) => c.key() == n0.key(),
            None => false,
        },
    };
    proof {
        reveal_strlit("-");
        reveal_strlit(">");
    }
    if shown {
        s.append(label.as_str());
        s.append("-");
        *cursor = node.links[level];
    } else {
        push_dashes(s, width);
        s.append("-");
    }
    if has_next {
        s.append(">");
    } else {
        s.append("-");
    }
    assert(s@ =~= old(s)@ + node_cell(label@, key@, *node, level as int, link_slot(*old(cursor)), width as nat));
}

/// The scratch cursors of a rendering, each level's set on `head_key`.
pub fn init_node_dbg_ptrs(head_key: &SlabKey<NoteSkipListNode>) -> (r: [Option<SlabKey<NoteSkipListNode>>; NOTE_SKIP_LIST_LEVELS])
    ensures
        forall|l: int| 0 <= l < NOTE_SKIP_LIST_LEVELS ==> r[l] == Some(*head_key),
{
    [Some(*head_key), Some(*head_key), Some(*head_key), Some(*head_key), Some(*head_key)]
}

impl NoteSkipList {
    /// Where every level's cursor starts: on the head.
    pub open spec fn start_cursor(&self) -> Option<nat> {
        if self.chain().len() == 0 { None } else { Some(self.chain()[0]) }
    }

    /// Level `l`'s cursor once the first `n` nodes are drawn.
    pub open spec fn cursor_after(&self, n: nat, l: int) -> Option<nat>
        decreases n,
    {
        if n == 0 {
            self.start_cursor()
        } else {
            let k = self.chain()[n - 1];
            cursor_step(k, self.node_at(k), l, self.cursor_after((n - 1) as nat, l))
        }
    }

    /// The cells of the first `n` nodes on level `l`.
    pub open spec fn row(&self, n: nat, l: int) -> Seq<char>
        decreases n,
    {
        if n == 0 {
            Seq::empty()
        } else {
            let k = self.chain()[n - 1];
            self.row((n - 1) as nat, l) + node_cell(label_of(self.note_at(k)), k, self.node_at(k), l, self.cursor_after((n - 1) as nat, l), label_of(self.note_at(k)).len())
        }
    }

    /// The first `m` rows of the rendering, top level first, each ended by `x`.
    pub open spec fn rows(&self, m: nat) -> Seq<char>
        decreases m,
    {
        if m == 0 {
            Seq::empty()
        } else {
            let r = self.row(self.chain().len(), NOTE_SKIP_LIST_LEVELS - m).push('x');
            if m == 1 { r } else { self.rows((m - 1) as nat).push('\n') + r }
        }
    }

    /// The rendering of the whole list: one row per level, top level first.
    pub open spec fn rendering(&self) -> Seq<char> {
        self.rows(NOTE_SKIP_LIST_LEVELS as nat)
    }

    fn render_row(&self, level: usize) -> (r: String)
        requires
            self.wf(),
            level < NOTE_SKIP_LIST_LEVELS,
        ensures
            r@ == self.row(self.chain().len(), level as int),
    {
        let ghost c = self.chain();
        let mut s = String::new();
        let mut cur = self.head_key;
        let mut cursor = self.head_key;
        let ghost mut i: int = 0;
        while cur.is_some()
            invariant
                self.wf(),
                0 <= i <= c.len(),
                c == self.chain(),
                level < NOTE_SKIP_LIST_LEVELS,
                s@ == self.row(i as nat, level as int),
                link_slot(cursor) == self.cursor_after(i as nat, level as int),
                cur is None ==> i == c.len(),
                cur matches Some(k) ==> i < c.len() && k@ == c[i],
            decreases c.len() - i,
        {
            let k = cur.unwrap();
            assert(self.links_ok(i));
            let node = node_arena_get(&self.nodes, k.key());
            let note = note_arena_get(&self.notes, node.val_slot_key.key());
            let label = note.label();
            let width = label.as_str().unicode_len();
            push_cell(&mut s, &label, width, k, &node, level, &mut cursor);
            cur = node.links[0];
            proof { i = i + 1; }
        }
        s
    }

    /// The rendering of the list's links: one row per level, top level first, each cell a
    /// node's `|start, end|` label where the level's chain reaches it, dashes where it
    /// passes over it, and every row ended by `x`.
    pub fn debug_string(&self) -> (r: String)
        requires
            self.wf(),
        ensures
            r@ == self.rendering(),
    {
        let mut out = String::new();
        let mut m: usize = 1;
        while m <= NOTE_SKIP_LIST_LEVELS
            invariant
                self.wf(),
                1 <= m <= NOTE_SKIP_LIST_LEVELS + 1,
                out@ == self.rows((m - 1) as nat),
            decreases NOTE_SKIP_LIST_LEVELS + 1 - m,
        {
            proof {
                reveal_strlit("\n");
                reveal_strlit("x");
            }
            if m > 1 {
                out.append("\n");
            }
            let row = self.render_row(NOTE_SKIP_LIST_LEVELS - m);
            out.append(row.as_str());
            out.append("x");
            assert(out@ =~= self.rows(m as nat));
            m += 1;
        }
        out
    }

    /// The rendering of node `key` alone, one row per level, top level first, against the
    /// scratch cursors `cursors`, which move past the node on the levels that reach it.
    #[verifier::spinoff_prover]
    pub fn debug_node(&self, key: SlabKey<NoteSkipListNode>, cursors: &mut [Option<SlabKey<NoteSkipListNode>>; NOTE_SKIP_LIST_LEVELS]) -> (r: String)
        requires
            self.wf(),
            self.chain().contains(key@),
        ensures
            r@ == node_rows(label_of(self.note_at(key@)), key@, self.node_at(key@), cursor_slots(*old(cursors)), NOTE_SKIP_LIST_LEVELS as nat),
            forall|l: int| 0 <= l < NOTE_SKIP_LIST_LEVELS ==> link_slot(#[trigger] final(cursors)[l]) == cursor_step(key@, self.node_at(key@), l, link_slot(old(cursors)[l])),
    {
        let ghost i = self.chain().index_of(key@);
        assert(node_slots(self.nodes).contains_key(self.chain()[i] as int));
        assert(note_slots(self.notes).contains_key(self.node_at(self.chain()[i]).val_slot_key@ as int));
        let node = node_arena_get(&self.nodes, key.key());
        let note = note_arena_get(&self.notes, node.val_slot_key.key());
        let label = note.label();
        let ghost start = cursor_slots(*cursors);
        let mut shown_somewhere = false;
        let mut j: usize = 0;
        while j < NOTE_SKIP_LIST_LEVELS
            invariant
                j <= NOTE_SKIP_LIST_LEVELS,
                start == cursor_slots(*cursors),
                shown_somewhere <==> exists|l: int| 0 <= l < j && start[l] == Some(key@),
            decreases NOTE_SKIP_LIST_LEVELS - j,
        {
            let here = match cursors[j] {
                Some(c) => c.key() == key.key(),
                None => false,
            };
            assert(here <==> start[j as int] == Some(key@));
            shown_somewhere = shown_somewhere || here;
            j += 1;
        }
        let width: usize = if shown_somewhere { label.as_str().unicode_len() } else { 0 };
        assert(width == node_width(label@, key@, start));
        let mut out = String::new();
        let mut m: usize = 1;
        while m <= NOTE_SKIP_LIST_LEVELS
            invariant
                1 <= m <= NOTE_SKIP_LIST_LEVELS + 1,
                start == cursor_slots(*old(cursors)),
                label@ == label_of(self.note_at(key@)),
                node == self.node_at(key@),
                out@ == node_rows(label@, key@, node, start, (m - 1) as nat),
                width == node_width(label@, key@, start),
                forall|l: int| 0 <= l < NOTE_SKIP_LIST_LEVELS ==> link_slot(#[trigger] cursors[l]) == (
                    if l >= NOTE_SKIP_LIST_LEVELS - (m - 1) { cursor_step(key@, node, l, start[l]) } else { start[l] }),
            decreases NOTE_SKIP_LIST_LEVELS + 1 - m,
        {
            proof { reveal_strlit("\n"); }
            if m > 1 {
                out.append("\n");
            }
            let level = NOTE_SKIP_LIST_LEVELS - m;
            let mut cursor = cursors[level];
            assert(link_slot(cursor) == start[level as int]);
            push_cell(&mut out, &label, width, key, &node, level, &mut cursor);
            cursors[level] = cursor;
            assert(out@ =~= node_rows(label@, key@, node, start, m as nat));
            m += 1;
        }
        out
    }
}

/// Node `i` of a list built by `NoteSkipList::from_parts` takes part in level `l`: the
/// head takes part in every level, node `i` in levels `0..=levels[i]`.
pub open spec fn reaches(levels: Seq<usize>, i: int, l: int) -> bool {
    i == 0 || l <= levels[i]
}

/// The first node from position `j` on that takes part in level `l`.
pub open spec fn next_reaching(levels: Seq<usize>, j: int, l: int) -> Option<int>
    decreases levels.len() - j,
{
    if j < 0 || j >= levels.len() {
        None
    } else if reaches(levels, j, l) {
        Some(j)
    } else {
        next_reaching(levels, j + 1, l)
    }
}

proof fn lemma_next_reaching(levels: Seq<usize>, j: int, l: int)
    requires
        0 <= j,
    ensures
        next_reaching(levels, j, l) matches Some(k) ==> j <= k < levels.len() && reaches(levels, k, l),
    decreases levels.len() - j,
{
    if j < levels.len() && !reaches(levels, j, l) {
        lemma_next_reaching(levels, j + 1, l);
    }
}

proof fn lemma_adjacent_ordered(s: Seq<NoteBox>, i: int, j: int)
    requires
        forall|k: int| 0 <= k < s.len() ==> #[trigger] s[k].valid(),
        forall|k: int| 0 <= k && k + 1 < s.len() ==> (#[trigger] s[k]).end_beat <= s[k + 1].start_beat,
        0 <= i < j < s.len(),
    ensures
        s[i].end_beat <= s[j].start_beat,
    decreases j - i,
{
    if i + 1 < j {
        lemma_adjacent_ordered(s, i + 1, j);
        assert(s[i + 1].valid());
    }
}

impl NoteSkipList {
    /// Builds a list holding `notes` in the order given, node `i` linked on levels
    /// `0..=levels[i]` and the head on every level; on each level a node links to the next
    /// node that takes part in it. Levels come afterwards from the generator seeded with
    /// `DEFAULT_LEVEL_SEED`.
    ///
    /// `None` when the two vectors differ in length, a level is `NOTE_SKIP_LIST_LEVELS` or
    /// more, a note ends before it starts, a note ends after the next one starts, or there
    /// are `u32::MAX` notes or more.
    #[verifier::loop_isolation(false)]
    #[verifier::spinoff_prover]
    #[verifier::rlimit(60)]
    pub fn from_parts(notes: &Vec<NoteBox>, levels: &Vec<usize>) -> (r: Option<Self>)
        ensures
            r is Some <==> (notes@.len() == levels@.len()
                && (forall|i: int| 0 <= i < levels@.len() ==> #[trigger] levels@[i] < NOTE_SKIP_LIST_LEVELS)
                && ordered(notes@) && notes@.len() < u32::MAX),
            r matches Some(list) ==> {
                &&& list.wf()
                &&& list@ == notes@
                &&& forall|i: int, l: int| 0 <= i < notes@.len() && 0 <= l < NOTE_SKIP_LIST_LEVELS ==>
                    #[trigger] list.link_at(list.chain()[i], l) == (if reaches(levels@, i, l) {
                        match next_reaching(levels@, i + 1, l) {
                            Some(j) => Some(list.chain()[j]),
                            None => None,
                        }
                    } else {
                        None
                    })
            },
    {
        let n = notes.len();
        if n != levels.len() || n >= u32::MAX as usize {
            return None;
        }
        let mut i: usize = 0;
        while i < n
            invariant
                n == notes@.len() == levels@.len(),
                i <= n,
                forall|k: int| 0 <= k < i ==> #[trigger] levels@[k] < NOTE_SKIP_LIST_LEVELS,
                forall|k: int| 0 <= k < i ==> #[trigger] notes@[k].valid(),
                forall|k: int| 0 <= k && k + 1 < i ==> (#[trigger] notes@[k]).end_beat <= notes@[k + 1].start_beat,
            decreases n - i,
        {
            if levels[i] >= NOTE_SKIP_LIST_LEVELS || notes[i].start_beat > notes[i].end_beat {
                assert(!notes@[i as int].valid() || levels@[i as int] >= NOTE_SKIP_LIST_LEVELS);
                return None;
            }
            if i > 0 && notes[i - 1].end_beat > notes[i].start_beat {
                assert(notes@[i - 1].end_beat > notes@[i as int].start_beat);
                return None;
            }
            i += 1;
        }
        assert forall|a: int, b: int| 0 <= a < b < notes@.len() implies (#[trigger] notes@[a]).end_beat <= (#[trigger] notes@[b]).start_beat by {
            lemma_adjacent_ordered(notes@, a, b);
        }
        let mut note_arena = note_arena_new();
        let mut node_arena = node_arena_new();
        let mut keys: Vec<SlabKey<NoteSkipListNode>> = Vec::new();
        let mut i: usize = 0;
        while i < n
            invariant
                n == notes@.len() == levels@.len(),
                n < u32::MAX,
                i <= n,
                keys@.len() == i,
                note_extent(note_arena) == i,
                node_extent(node_arena) == i,
                node_slots(node_arena).dom().len() == i,
                note_slots(note_arena).dom().len() == i,
                note_slots(note_arena).dom().finite(),
                forall|a: int, b: int| 0 <= a < b < i ==> node_slots(node_arena)[(#[trigger] keys@[a])@ as int].val_slot_key@
                    != node_slots(node_arena)[(#[trigger] keys@[b])@ as int].val_slot_key@,
                forall|k: int| 0 <= k < i ==> node_slots(node_arena).contains_key(#[trigger] keys@[k]@ as int),
                forall|a: int, b: int| 0 <= a < b < i ==> (#[trigger] keys@[a])@ != (#[trigger] keys@[b])@,
                forall|k: int| 0 <= k < i ==> note_slots(note_arena).contains_key(node_slots(node_arena)[#[trigger] keys@[k]@ as int].val_slot_key@ as int),
                forall|k: int| 0 <= k < i ==> note_slots(note_arena)[node_slots(node_arena)[#[trigger] keys@[k]@ as int].val_slot_key@ as int] == notes@[k],
                node_slots(node_arena).dom().finite(),
            decreases n - i,
        {
            let pk = note_arena_insert(&mut note_arena, notes[i]);
            let nk = node_arena_insert(&mut node_arena, NoteSkipListNode { val_slot_key: SlabKey::from_key(pk), links: blank_shortcuts() });
            keys.push(SlabKey::from_key(nk));
            i += 1;
        }
        let mut next: [Option<SlabKey<NoteSkipListNode>>; NOTE_SKIP_LIST_LEVELS] = blank_shortcuts();
        let ghost built = node_slots(node_arena);
        let mut i: usize = n;
        while i > 0
            invariant
                n == notes@.len() == levels@.len() == keys@.len(),
                i <= n,
                forall|k: int| 0 <= k < n ==> #[trigger] levels@[k] < NOTE_SKIP_LIST_LEVELS,
                node_slots(node_arena).dom() == built.dom(),
                node_extent(node_arena) == n,
                forall|k: int| 0 <= k < n ==> built.contains_key(#[trigger] keys@[k]@ as int),
                forall|a: int, b: int| 0 <= a < b < n ==> (#[trigger] keys@[a])@ != (#[trigger] keys@[b])@,
                forall|k: int| 0 <= k < n ==> node_slots(node_arena)[#[trigger] keys@[k]@ as int].val_slot_key == built[keys@[k]@ as int].val_slot_key,
                forall|l: int| 0 <= l < NOTE_SKIP_LIST_LEVELS ==> link_slot(#[trigger] next[l]) == match next_reaching(levels@, i as int, l) {
                    Some(j) => Some(keys@[j]@),
                    None => None,
                },
                forall|k: int, l: int| i <= k < n && 0 <= l < NOTE_SKIP_LIST_LEVELS ==>
                    #[trigger] link_slot(node_slots(node_arena)[keys@[k]@ as int].links[l]) == (if reaches(levels@, k, l) {
                        match next_reaching(levels@, k + 1, l) {
                            Some(j) => Some(keys@[j]@),
                            None => None,
                        }
                    } else {
                        None
                    }),
            decreases i,
        {
            i -= 1;
            let key = keys[i];
            let old_node = node_arena_get(&node_arena, key.key());
            let mut node = NoteSkipListNode { val_slot_key: old_node.val_slot_key, links: blank_shortcuts() };
            let ghost next_before = next;
            let mut l: usize = 0;
            while l < NOTE_SKIP_LIST_LEVELS
                invariant
                    0 <= i < n,
                    l <= NOTE_SKIP_LIST_LEVELS,
                    n == levels@.len(),
                    node.val_slot_key == old_node.val_slot_key,
                    forall|m: int| 0 <= m < NOTE_SKIP_LIST_LEVELS ==> #[trigger] node.links[m] == (if m < l && reaches(levels@, i as int, m) { next_before[m] } else { None }),
                    forall|m: int| 0 <= m < NOTE_SKIP_LIST_LEVELS ==> #[trigger] next[m] == (if m < l && reaches(levels@, i as int, m) { Some(key) } else { next_before[m] }),
                decreases NOTE_SKIP_LIST_LEVELS - l,
            {
                if i == 0 || l <= levels[i] {
                    node.links[l] = next[l];
                    next[l] = Some(key);
                }
                l += 1;
            }
            node_arena_set(&mut node_arena, key.key(), node);
            proof {
                assert forall|m: int| 0 <= m < NOTE_SKIP_LIST_LEVELS implies link_slot(#[trigger] next[m]) == match next_reaching(levels@, i as int, m) {
                    Some(j) => Some(keys@[j]@),
                    None => None,
                } by {}
                assert forall|k: int, m: int| i <= k < n && 0 <= m < NOTE_SKIP_LIST_LEVELS implies
                    #[trigger] link_slot(node_slots(node_arena)[keys@[k]@ as int].links[m]) == (if reaches(levels@, k, m) {
                        match next_reaching(levels@, k + 1, m) {
                            Some(j) => Some(keys@[j]@),
                            None => None,
                        }
                    } else {
                        None
                    }) by {
                    if k > i {
                        assert(keys@[k]@ != keys@[i as int]@);
                    }
                }
                assert forall|k: int| 0 <= k < n implies node_slots(node_arena)[#[trigger] keys@[k]@ as int].val_slot_key == built[keys@[k]@ as int].val_slot_key by {
                    if k != i {
                        if k < i { assert(keys@[k]@ != keys@[i as int]@); } else { assert(keys@[i as int]@ != keys@[k]@); }
                    }
                }
            }
        }
        let head_key = if n == 0 { None } else { Some(keys[0]) };
        let ghost c = keys@.map_values(|k: SlabKey<NoteSkipListNode>| k@);
        let list = NoteSkipList {
            head_key,
            notes: note_arena,
            nodes: node_arena,
            level_gen: LevelGenerator::new(DEFAULT_LEVEL_SEED),
            chain: Ghost(c),
        };
        proof {
            assert forall|a: int, b: int| 0 <= a < c.len() && 0 <= b < c.len() && a != b implies c[a] != c[b] by {
                if a < b { assert(keys@[a]@ != keys@[b]@); } else { assert(keys@[b]@ != keys@[a]@); }
            }
            assert(c.no_duplicates());
            assert forall|a: int| 0 <= a < c.len() implies #[trigger] list.links_ok(a) by {
                assert forall|l: int| 0 <= l < NOTE_SKIP_LIST_LEVELS implies match #[trigger] list.link_at(c[a], l) {
                    Some(t) => list.after(a, t),
                    None => true,
                } by {
                    lemma_next_reaching(levels@, a + 1, l);
                    if let Some(j) = next_reaching(levels@, a + 1, l) {
                        assert(c[j] == keys@[j]@);
                    }
                }
                if a + 1 < c.len() {
                    assert(next_reaching(levels@, a + 1, 0) == Some(a + 1));
                }
            }
            assert(list@ =~= notes@);
            assert(list.wf());
            assert forall|a: int, l: int| 0 <= a < notes@.len() && 0 <= l < NOTE_SKIP_LIST_LEVELS implies
                #[trigger] list.link_at(list.chain()[a], l) == (if reaches(levels@, a, l) {
                    match next_reaching(levels@, a + 1, l) {
                        Some(j) => Some(list.chain()[j]),
                        None => None,
                    }
                } else {
                    None
                }) by {
                lemma_next_reaching(levels@, a + 1, l);
                assert(c[a] == keys@[a]@);
                if let Some(j) = next_reaching(levels@, a + 1, l) {
                    assert(c[j] == keys@[j]@);
                }
            }
        }
        Some(list)
    }
}

/// `a` comes no later than `b` in the order by start, then end.
pub open spec fn start_end_le(a: NoteBox, b: NoteBox) -> bool {
    a.start_beat < b.start_beat || (a.start_beat == b.start_beat && a.end_beat <= b.end_beat)
}

impl NoteSkipList {
    /// The level-0 chain of a list holds one node per interval, each once, and the node at
    /// position `i` holds the `i`-th interval.
    pub proof fn lemma_chain_view(&self)
        requires
            self.wf(),
        ensures
            self.chain().len() == self@.len(),
            self.chain().no_duplicates(),
            forall|i: int| 0 <= i < self@.len() ==> #[trigger] self.note_at(self.chain()[i]) == self@[i],
    {
    }

    /// Iterating a list, however its intervals were inserted, yields them sorted by start
    /// and then end: every interval ends no later than any later one starts, so the pairs
    /// `(start, end)` never decrease.
    pub proof fn lemma_iteration_sorted(&self)
        requires
            self.wf(),
        ensures
            ordered(self@),
            forall|i: int, j: int| 0 <= i < j < self@.len() ==> start_end_le(#[trigger] self@[i], #[trigger] self@[j]),
    {
        let v = self@;
        assert forall|i: int, j: int| 0 <= i < j < v.len() implies start_end_le(#[trigger] v[i], #[trigger] v[j]) by {
            assert(v[i].valid() && v[j].valid());
            assert(v[i].end_beat <= v[j].start_beat);
        }
    }

    /// On every level, a node's link leads to a node further along level 0, and the node's
    /// interval ends no later than any interval that the link passes over (or reaches)
    /// starts.
    pub proof fn lemma_levels_consistent(&self)
        requires
            self.wf(),
        ensures
            forall|i: int, l: int| 0 <= i < self.chain().len() && 0 <= l < NOTE_SKIP_LIST_LEVELS ==>
                match #[trigger] self.link_at(self.chain()[i], l) {
                    Some(t) => exists|j: int| i < j < self.chain().len() && self.chain()[j] == t
                        && forall|m: int| i < m <= j ==> self@[i].end_beat <= (#[trigger] self@[m]).start_beat,
                    None => true,
                },
    {
        let c = self.chain();
        let v = self@;
        assert forall|i: int, l: int| 0 <= i < c.len() && 0 <= l < NOTE_SKIP_LIST_LEVELS implies
            match #[trigger] self.link_at(c[i], l) {
                Some(t) => exists|j: int| i < j < c.len() && c[j] == t
                    && forall|m: int| i < m <= j ==> v[i].end_beat <= (#[trigger] v[m]).start_beat,
                None => true,
            } by {
            assert(self.links_ok(i));
            if let Some(t) = self.link_at(c[i], l) {
                let j = choose|j: int| i < j < c.len() && c[j] == t;
                assert forall|m: int| i < m <= j implies v[i].end_beat <= (#[trigger] v[m]).start_beat by {}
            }
        }
    }
}

proof fn lemma_follows_remove(c: Seq<nat>, q: int, i: int, t: nat)
    requires
        follows(c, i, t),
        0 <= q < c.len(),
        0 <= i < c.len(),
        i != q,
        t != c[q],
    ensures
        follows(c.remove(q), if i < q { i } else { i - 1 }, t),
{
    let j = choose|j: int| i < j < c.len() && c[j] == t;
    let j2 = if j < q { j } else { j - 1 };
    assert(c.remove(q)[j2] == t);
}

impl NoteSkipList {
    /// The node of the first interval, in order, that contains `beat`, if any.
    #[verifier::spinoff_prover]
    fn locate(&self, beat: u64) -> (r: Option<SlabKey<NoteSkipListNode>>)
        requires
            self.wf(),
        ensures
            r is None <==> !exists|i: int| 0 <= i < self@.len() && (#[trigger] self@[i]).spec_contains_beat(beat),
            r matches Some(k) ==> {
                let q = self.position(k@);
                &&& 0 <= q < self@.len()
                &&& self.chain()[q] == k@
                &&& self@[q].spec_contains_beat(beat)
                &&& forall|j: int| 0 <= j < q ==> !(#[trigger] self@[j]).spec_contains_beat(beat)
            },
    {
        let ghost c = self.chain();
        let ghost v = self@;
        let h = match self.head_key {
            Some(h) => h,
            None => return None,
        };
        proof { self.lemma_position(0); }
        let head_node = node_arena_get(&self.nodes, h.key());
        let head_note = note_arena_get(&self.notes, head_node.val_slot_key.key());
        assert(head_note == v[0]);
        if head_note.contains_beat(beat) {
            return Some(h);
        } else if head_note.start_beat > beat {
            assert forall|i: int| 0 <= i < v.len() implies !(#[trigger] v[i]).spec_contains_beat(beat) by {
                if i > 0 {
                    assert(v[0].end_beat <= v[i].start_beat);
                    assert(v[0].valid());
                }
            }
            return None;
        }
        let mut preds = [h, h, h, h, h];
        self.search(h, beat, &mut preds);
        let ghost p = self.position(preds[0]@);
        let pred_node = node_arena_get(&self.nodes, preds[0].key());
        let pred_note = note_arena_get(&self.notes, pred_node.val_slot_key.key());
        assert(pred_note == v[p]);
        assert(pred_note.end_beat < beat) by {
            if p == 0 { assert(v[0].valid()); }
        }
        assert(self.links_ok(p));
        assert forall|i: int| 0 <= i <= p implies !(#[trigger] v[i]).spec_contains_beat(beat) by {
            self.lemma_ends_grow(i, p);
        }
        match pred_node.links[0] {
            None => {
                assert(p + 1 == v.len());
                None
            },
            Some(next) => {
                assert(next@ == c[p + 1]);
                let next_node = node_arena_get(&self.nodes, next.key());
                let next_note = note_arena_get(&self.notes, next_node.val_slot_key.key());
                assert(next_note == v[p + 1]);
                proof { self.lemma_position(p + 1); }
                if next_note.contains_beat(beat) {
                    return Some(next);
                }
                assert(v[p + 1].end_beat >= beat);
                assert(v[p + 1].valid());
                assert forall|i: int| p + 1 <= i < v.len() implies !(#[trigger] v[i]).spec_contains_beat(beat) by {
                    if i > p + 1 {
                        assert(v[p + 1].end_beat <= v[i].start_beat);
                        assert(v[i].valid());
                    }
                }
                None
            },
        }
    }

    /// What is left of the list once the node at position `q` is unlinked and its slots
    /// freed, outside the links, is well formed and holds the other intervals in order.
    #[verifier::spinoff_prover]
    proof fn lemma_removed(&self, pre: NoteSkipList, q: int)
        requires
            pre.wf(),
            0 <= q < pre.chain().len(),
            self.chain() == pre.chain().remove(q),
            node_slots(self.nodes).dom() == node_slots(pre.nodes).dom().remove(pre.chain()[q] as int),
            note_slots(self.notes) == note_slots(pre.notes).remove(pre.node_at(pre.chain()[q]).val_slot_key@ as int),
            node_extent(self.nodes) == node_extent(pre.nodes),
            note_extent(self.notes) == note_extent(pre.notes),
            forall|i: int| 0 <= i < self.chain().len() ==> self.node_at(#[trigger] self.chain()[i]).val_slot_key == pre.node_at(self.chain()[i]).val_slot_key,
            self.head_key is None <==> self.chain().len() == 0,
            self.chain().len() > 0 ==> self.head_key->0@ == self.chain()[0],
            forall|i: int| 0 <= i < self.chain().len() ==> #[trigger] self.links_ok(i),
        ensures
            self.wf(),
            self@ == pre@.remove(q),
    {
        let c = pre.chain();
        let c2 = self.chain();
        let k = c[q];
        let pk = pre.node_at(k).val_slot_key@;
        assert(node_slots(pre.nodes).contains_key(k as int));
        assert(note_slots(pre.notes).contains_key(pk as int));
        assert forall|i: int| 0 <= i < c2.len() implies {
            &&& node_slots(self.nodes).contains_key(#[trigger] c2[i] as int)
            &&& note_slots(self.notes).contains_key(self.node_at(c2[i]).val_slot_key@ as int)
            &&& self.note_at(c2[i]) == pre.note_at(c2[i])
        } by {
            let i0 = if i < q { i } else { i + 1 };
            assert(c2[i] == c[i0]);
            assert(node_slots(pre.nodes).contains_key(c[i0] as int));
            assert(note_slots(pre.notes).contains_key(pre.node_at(c[i0]).val_slot_key@ as int));
            assert(c.no_duplicates());
            assert(pre.node_at(c[i0]).val_slot_key@ != pk);
        }
        assert forall|a: int, b: int| 0 <= a < c2.len() && 0 <= b < c2.len() && a != b implies c2[a] != c2[b] by {
            let a0 = if a < q { a } else { a + 1 };
            let b0 = if b < q { b } else { b + 1 };
            assert(c2[a] == c[a0] && c2[b] == c[b0]);
        }
        assert(c2.no_duplicates());
        assert forall|a: int, b: int|
            0 <= a < c2.len() && 0 <= b < c2.len() && a != b implies self.node_at(#[trigger] c2[a]).val_slot_key@
                != self.node_at(#[trigger] c2[b]).val_slot_key@ by {
            let a0 = if a < q { a } else { a + 1 };
            let b0 = if b < q { b } else { b + 1 };
            assert(c2[a] == c[a0] && c2[b] == c[b0]);
        }
        assert(self@ =~= pre@.remove(q)) by {
            assert forall|i: int| 0 <= i < c2.len() implies self@[i] == pre@.remove(q)[i] by {
                let i0 = if i < q { i } else { i + 1 };
                assert(c2[i] == c[i0]);
            }
        }
        let v = pre@;
        let v2 = self@;
        assert forall|a: int, b: int| 0 <= a < b < v2.len() implies (#[trigger] v2[a]).end_beat <= (#[trigger] v2[b]).start_beat by {
            let a0 = if a < q { a } else { a + 1 };
            let b0 = if b < q { b } else { b + 1 };
            assert(v2[a] == v[a0] && v2[b] == v[b0]);
        }
        assert forall|a: int| 0 <= a < v2.len() implies #[trigger] v2[a].valid() by {
            let a0 = if a < q { a } else { a + 1 };
            assert(v2[a] == v[a0]);
        }
        assert(self.arenas_fit(c2.len()));
    }

    /// Unlinking a node other than the head: each node before it that led to it on a level
    /// now leads where it led, and nothing else changes.
    #[verifier::spinoff_prover]
    proof fn lemma_unlink_links(&self, pre: NoteSkipList, q: int)
        requires
            pre.wf(),
            0 < q < pre.chain().len(),
            self.chain() == pre.chain().remove(q),
            forall|i: int, l: int| 0 <= i < q && 0 <= l < NOTE_SKIP_LIST_LEVELS ==> #[trigger] self.link_at(pre.chain()[i], l)
                == (if pre.link_at(pre.chain()[i], l) == Some(pre.chain()[q]) { pre.link_at(pre.chain()[q], l) } else { pre.link_at(pre.chain()[i], l) }),
            forall|i: int, l: int| q < i < pre.chain().len() && 0 <= l < NOTE_SKIP_LIST_LEVELS ==> #[trigger] self.link_at(pre.chain()[i], l)
                == pre.link_at(pre.chain()[i], l),
        ensures
            forall|i: int| 0 <= i < self.chain().len() ==> #[trigger] self.links_ok(i),
    {
        let c = pre.chain();
        let c2 = self.chain();
        let k = c[q];
        assert(pre.links_ok(q));
        assert forall|i: int| 0 <= i < c2.len() implies #[trigger] self.links_ok(i) by {
            let i0 = if i < q { i } else { i + 1 };
            assert(c2[i] == c[i0]);
            assert(pre.links_ok(i0));
            assert(c.no_duplicates());
            if i + 1 < c2.len() {
                let j0 = if i + 1 < q { i + 1 } else { i + 2 };
                assert(c2[i + 1] == c[j0]);
            }
            assert forall|l: int| 0 <= l < NOTE_SKIP_LIST_LEVELS implies match #[trigger] self.link_at(c2[i], l) {
                Some(t) => self.after(i, t),
                None => true,
            } by {
                if i0 < q && pre.link_at(c[i0], l) == Some(k) {
                    if let Some(t) = pre.link_at(k, l) {
                        let j = choose|j: int| q < j < c.len() && c[j] == t;
                        assert(c2[j - 1] == t);
                    }
                } else if let Some(t) = pre.link_at(c[i0], l) {
                    if t == k {
                        let j = choose|j: int| i0 < j < c.len() && c[j] == t;
                        assert(j == q);
                    }
                    lemma_follows_remove(c, q, i0, t);
                }
            }
        }
    }

    /// Unlinking the head: its successor takes over, on each level, the head's link where
    /// the head did not lead to it, and nothing else changes.
    #[verifier::spinoff_prover]
    proof fn lemma_unlink_head_links(&self, pre: NoteSkipList)
        requires
            pre.wf(),
            1 < pre.chain().len(),
            self.chain() == pre.chain().remove(0),
            forall|l: int| 0 <= l < NOTE_SKIP_LIST_LEVELS ==> #[trigger] self.link_at(pre.chain()[1], l)
                == (if pre.link_at(pre.chain()[0], l) == Some(pre.chain()[1]) { pre.link_at(pre.chain()[1], l) } else { pre.link_at(pre.chain()[0], l) }),
            forall|i: int, l: int| 1 < i < pre.chain().len() && 0 <= l < NOTE_SKIP_LIST_LEVELS ==> #[trigger] self.link_at(pre.chain()[i], l)
                == pre.link_at(pre.chain()[i], l),
        ensures
            forall|i: int| 0 <= i < self.chain().len() ==> #[trigger] self.links_ok(i),
    {
        let c = pre.chain();
        let c2 = self.chain();
        assert(pre.links_ok(0));
        assert forall|i: int| 0 <= i < c2.len() implies #[trigger] self.links_ok(i) by {
            assert(c2[i] == c[i + 1]);
            assert(pre.links_ok(i + 1));
            assert(c.no_duplicates());
            if i + 1 < c2.len() {
                assert(c2[i + 1] == c[i + 2]);
            }
            assert forall|l: int| 0 <= l < NOTE_SKIP_LIST_LEVELS implies match #[trigger] self.link_at(c2[i], l) {
                Some(t) => self.after(i, t),
                None => true,
            } by {
                if i == 0 && pre.link_at(c[0], l) != Some(c[1]) {
                    if let Some(t) = pre.link_at(c[0], l) {
                        let j = choose|j: int| 0 < j < c.len() && c[j] == t;
                        assert(j != 1);
                        assert(c2[j - 1] == t);
                    }
                } else if let Some(t) = pre.link_at(c[i + 1], l) {
                    let j = choose|j: int| i + 1 < j < c.len() && c[j] == t;
                    assert(c2[j - 1] == t);
                }
            }
        }
    }
}

impl NoteSkipList {
    /// Removes the first interval, in order, that contains `beat`: every node that led to
    /// it on some level now leads where it led, and its two arena slots are freed for
    /// reuse. Returns whether an interval was removed.
    #[verifier::loop_isolation(false)]
    #[verifier::spinoff_prover]
    #[verifier::rlimit(60)]
    pub fn remove(&mut self, beat: u64) -> (r: bool)
        requires
            old(self).wf(),
        ensures
            final(self).wf(),
            r == exists|i: int| 0 <= i < old(self)@.len() && (#[trigger] old(self)@[i]).spec_contains_beat(beat),
            !r ==> *final(self) == *old(self),
            r ==> exists|q: int| 0 <= q < old(self)@.len() && old(self)@[q].spec_contains_beat(beat)
                && (forall|j: int| 0 <= j < q ==> !(#[trigger] old(self)@[j]).spec_contains_beat(beat))
                && final(self)@ == old(self)@.remove(q)
                && final(self)@.to_multiset() == old(self)@.to_multiset().remove(old(self)@[q])
                && #[trigger] removed_at(*old(self), *final(self), q),
    {
        let ghost pre = *self;
        let ghost c = self.chain();
        let k = match self.locate(beat) {
            None => return false,
            Some(k) => k,
        };
        let ghost q = self.position(k@);
        assert(self.links_ok(q));
        assert(node_slots(self.nodes).contains_key(c[q] as int));
        assert(note_slots(self.notes).contains_key(self.node_at(c[q]).val_slot_key@ as int));
        let target = node_arena_get(&self.nodes, k.key());
        let h = self.head_key.unwrap();
        proof { self.lemma_position(0); }
        if h.key() == k.key() {
            assert(q == 0);
            match target.links[0] {
                None => {
                    self.head_key = None;
                },
                Some(n1) => {
                    assert(n1@ == c[1]);
                    assert(node_slots(self.nodes).contains_key(c[1] as int));
                    let mut nn = node_arena_get(&self.nodes, n1.key());
                    let ghost nn0 = nn;
                    let mut l: usize = 0;
                    while l < NOTE_SKIP_LIST_LEVELS
                        invariant
                            l <= NOTE_SKIP_LIST_LEVELS,
                            nn.val_slot_key == nn0.val_slot_key,
                            forall|m: int| 0 <= m < NOTE_SKIP_LIST_LEVELS ==> #[trigger] link_slot(nn.links[m]) == (
                                if m < l && link_slot(target.links[m]) != Some(n1@) { link_slot(target.links[m]) } else { link_slot(nn0.links[m]) }),
                        decreases NOTE_SKIP_LIST_LEVELS - l,
                    {
                        let keep = match target.links[l] {
                            Some(t) => t.key() == n1.key(),
                            None => false,
                        };
                        if !keep {
                            nn.links[l] = target.links[l];
                        }
                        l += 1;
                    }
                    node_arena_set(&mut self.nodes, n1.key(), nn);
                    self.head_key = Some(n1);
                },
            }
        } else {
            assert(q != 0);
            let ghost n0 = node_slots(self.nodes);
            let mut cur = h;
            let ghost mut i: int = 0;
            while cur.key() != k.key()
                invariant
                    0 <= i <= q,
                    0 < q < c.len(),
                    c == pre.chain(),
                    c[q] == k@,
                    c[i] == cur@,
                    target == pre.node_at(k@),
                    node_slots(self.nodes).dom() == n0.dom(),
                    n0 == node_slots(pre.nodes),
                    node_extent(self.nodes) == node_extent(pre.nodes),
                    node_slots(self.nodes).dom().finite(),
                    self.notes == pre.notes,
                    self.head_key == pre.head_key,
                    forall|j: int| 0 <= j < c.len() ==> node_slots(self.nodes)[#[trigger] c[j] as int].val_slot_key == n0[c[j] as int].val_slot_key,
                    forall|j: int, l: int| 0 <= j < i && 0 <= l < NOTE_SKIP_LIST_LEVELS ==> #[trigger] link_slot(node_slots(self.nodes)[c[j] as int].links[l])
                        == (if pre.link_at(c[j], l) == Some(k@) { pre.link_at(k@, l) } else { pre.link_at(c[j], l) }),
                    forall|j: int| i <= j < c.len() ==> node_slots(self.nodes)[#[trigger] c[j] as int] == n0[c[j] as int],
                decreases q - i,
            {
                assert(i != q);
                assert(c.no_duplicates());
                assert(i < q);
                assert(pre.links_ok(i));
                assert(node_slots(pre.nodes).contains_key(c[i] as int));
                let node = node_arena_get(&self.nodes, cur.key());
                let mut m = node;
                let mut l: usize = 0;
                while l < NOTE_SKIP_LIST_LEVELS
                    invariant
                        l <= NOTE_SKIP_LIST_LEVELS,
                        m.val_slot_key == node.val_slot_key,
                        forall|x: int| 0 <= x < NOTE_SKIP_LIST_LEVELS ==> #[trigger] link_slot(m.links[x]) == (
                            if x < l && link_slot(node.links[x]) == Some(k@) { link_slot(target.links[x]) } else { link_slot(node.links[x]) }),
                    decreases NOTE_SKIP_LIST_LEVELS - l,
                {
                    let hit = match node.links[l] {
                        Some(t) => t.key() == k.key(),
                        None => false,
                    };
                    if hit {
                        m.links[l] = target.links[l];
                    }
                    l += 1;
                }
                let ghost before = node_slots(self.nodes);
                node_arena_set(&mut self.nodes, cur.key(), m);
                assert(i + 1 < c.len());
                assert(link_slot(node.links[0]) == Some(c[i + 1]));
                cur = node.links[0].unwrap();
                proof {
                    assert forall|j: int| 0 <= j < c.len() implies node_slots(self.nodes)[#[trigger] c[j] as int].val_slot_key == n0[c[j] as int].val_slot_key by {
                        if j != i { assert(c[j] != c[i]); }
                    }
                    assert forall|j: int, x: int| 0 <= j < i + 1 && 0 <= x < NOTE_SKIP_LIST_LEVELS implies #[trigger] link_slot(node_slots(self.nodes)[c[j] as int].links[x])
                        == (if pre.link_at(c[j], x) == Some(k@) { pre.link_at(k@, x) } else { pre.link_at(c[j], x) }) by {
                        if j != i { assert(c[j] != c[i]); }
                    }
                    assert forall|j: int| i + 1 <= j < c.len() implies node_slots(self.nodes)[#[trigger] c[j] as int] == n0[c[j] as int] by {
                        assert(c[j] != c[i]);
                    }
                    i = i + 1;
                }
            }
            assert(i == q) by {
                assert(c.no_duplicates());
            }
        }
        let ghost kept = node_slots(self.nodes);
        node_arena_remove(&mut self.nodes, k.key());
        note_arena_remove(&mut self.notes, target.val_slot_key.key());
        let ghost nc = c.remove(q);
        self.chain = Ghost(nc);
        proof {
            assert(self.chain() == nc);
            if q == 0 {
                if c.len() > 1 {
                    assert forall|l: int| 0 <= l < NOTE_SKIP_LIST_LEVELS implies #[trigger] self.link_at(c[1], l)
                        == (if pre.link_at(c[0], l) == Some(c[1]) { pre.link_at(c[1], l) } else { pre.link_at(c[0], l) }) by {}
                    assert forall|j: int, l: int| 1 < j < c.len() && 0 <= l < NOTE_SKIP_LIST_LEVELS implies #[trigger] self.link_at(c[j], l)
                        == pre.link_at(c[j], l) by {
                        assert(c[j] != c[1] && c[j] != c[0]);
                    }
                    self.lemma_unlink_head_links(pre);
                    assert(self.head_key->0@ == nc[0]);
                }
                assert forall|j: int| 0 <= j < nc.len() implies self.node_at(#[trigger] nc[j]).val_slot_key == pre.node_at(nc[j]).val_slot_key by {
                    assert(nc[j] == c[j + 1]);
                }
            } else {
                assert forall|j: int, l: int| 0 <= j < q && 0 <= l < NOTE_SKIP_LIST_LEVELS implies #[trigger] self.link_at(c[j], l)
                    == (if pre.link_at(c[j], l) == Some(c[q]) { pre.link_at(c[q], l) } else { pre.link_at(c[j], l) }) by {
                    assert(c[j] != c[q]);
                    assert(link_slot(kept[c[j] as int].links[l]) == (if pre.link_at(c[j], l) == Some(k@) { pre.link_at(k@, l) } else { pre.link_at(c[j], l) }));
                }
                assert forall|j: int, l: int| q < j < c.len() && 0 <= l < NOTE_SKIP_LIST_LEVELS implies #[trigger] self.link_at(c[j], l)
                    == pre.link_at(c[j], l) by {
                    assert(c[j] != c[q]);
                    assert(kept[c[j] as int] == node_slots(pre.nodes)[c[j] as int]);
                }
                self.lemma_unlink_links(pre, q);
                assert(self.head_key->0@ == nc[0]);
                assert forall|j: int| 0 <= j < nc.len() implies self.node_at(#[trigger] nc[j]).val_slot_key == pre.node_at(nc[j]).val_slot_key by {
                    let j0 = if j < q { j } else { j + 1 };
                    assert(nc[j] == c[j0]);
                    assert(c[j0] != c[q]);
                }
            }
            assert(node_slots(self.nodes).dom() =~= node_slots(pre.nodes).dom().remove(c[q] as int));
            self.lemma_removed(pre, q);
            to_multiset_remove(pre@, q);
            assert(self.payloads() == pre.payloads().remove(pre.node_at(c[q]).val_slot_key@ as int));
            assert forall|i: int, l: int| 0 <= i < c.len() && i != q && !(q == 0 && i == 1) && 0 <= l < NOTE_SKIP_LIST_LEVELS
                implies #[trigger] self.link_at(c[i], l) == (if pre.link_at(c[i], l) == Some(c[q]) { pre.link_at(c[q], l) } else { pre.link_at(c[i], l) }) by {
                if i > q {
                    assert(pre.links_ok(i));
                    if let Some(t) = pre.link_at(c[i], l) {
                        let j = choose|j: int| i < j < c.len() && c[j] == t;
                        assert(c.no_duplicates());
                    }
                }
            }
            assert(removed_at(pre, *self, q));
        }
        true
    }
}

} // verus!
