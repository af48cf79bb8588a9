use std::num::NonZeroU32;

use note_lines::note::NoteBox;
use note_lines::skip_list::{init_node_dbg_ptrs, NoteSkipList};
use note_lines::handle::SlabKey;
use rand::seq::SliceRandom;
use rand::SeedableRng;
use rand_pcg::Pcg32;

fn note(start_beat: u64, end_beat: u64) -> NoteBox {
    NoteBox { start_beat, end_beat }
}

fn collect(list: &NoteSkipList) -> Vec<NoteBox> {
    let mut it = list.iter();
    let mut out = Vec::new();
    while let Some(n) = it.next() {
        out.push(n);
    }
    out
}

#[test]
fn slab_key_size() {
    let (s1, s2, s3) = (
        std::mem::size_of::<NonZeroU32>(),
        std::mem::size_of::<SlabKey<(u64, u64)>>(),
        std::mem::size_of::<Option<SlabKey<(u64, u64)>>>(),
    );
    assert_eq!(s1, s2);
    assert_eq!(s2, s3);
}

#[test]
fn skiplist_construction_iteration() {
    let mut skip_list = NoteSkipList::new();
    let mut notes: Vec<NoteBox> = vec![(1, 2), (5, 10), (3, 4)]
        .into_iter()
        .map(|(start_beat, end_beat)| NoteBox { start_beat, end_beat })
        .collect();
    for n in &notes {
        skip_list.insert(n.clone());
    }

    let actual_notes = collect(&skip_list);
    notes.sort();
    assert_eq!(notes, actual_notes);
}

#[test]
fn skiplist_bulk_insertion() {
    let mut skip_list = NoteSkipList::new();
    let mut rng = Pcg32::seed_from_u64(0);
    let mut notes = Vec::with_capacity(1000 / 2);
    for i in 0..500u64 {
        notes.push((i * 2, (i * 2) + 1));
    }
    notes.shuffle(&mut rng);

    for (start_beat, end_beat) in notes {
        skip_list.insert(NoteBox { start_beat, end_beat });
        println!("{}\n", skip_list.debug_string());
    }
    let actual = collect(&skip_list);
    assert_eq!(actual.len(), 500);
    for (i, n) in actual.iter().enumerate() {
        assert_eq!(*n, note(i as u64 * 2, i as u64 * 2 + 1));
    }
}

#[test]
fn skiplist_node_debug() {
    let list = NoteSkipList::from_parts(&vec![note(0, 10), note(20, 30)], &vec![4, 1]).unwrap();
    let node_key = list.head().unwrap();
    let mut cursors = init_node_dbg_ptrs(&node_key);

    let expected = "|0, 10|--\n|0, 10|--\n|0, 10|--\n|0, 10|->\n|0, 10|->";
    let actual = list.debug_node(node_key, &mut cursors);
    println!("\nEXPECTED:\n{}", expected);
    println!("\nACTUAL:\n{}", actual);
    assert_eq!(expected, &actual);
}

#[test]
fn skiplist_debug() {
    let notes = vec![note(1, 2), note(2, 3), note(3, 4), note(4, 5)];
    let skip_list = NoteSkipList::from_parts(&notes, &vec![4, 0, 1, 3]).unwrap();
    let expected = "|1, 2|------------------------->x\n|1, 2|----------------->|4, 5|->x\n|1, 2|----------------->|4, 5|->x\n|1, 2|--------->|3, 4|->|4, 5|->x\n|1, 2|->|2, 3|->|3, 4|->|4, 5|->x";
    let actual = skip_list.debug_string();
    println!("\nEXPECTED:\n{}", expected);
    println!("\nACTUAL:\n{}", actual);
    assert_eq!(actual, expected);
}

#[test]
fn insertion_ordering_scenario() {
    let mut list = NoteSkipList::new();
    list.insert(note(1, 2));
    list.insert(note(5, 10));
    list.insert(note(3, 4));
    assert_eq!(collect(&list), vec![note(1, 2), note(3, 4), note(5, 10)]);
    assert_eq!(list.len(), 3);
}

#[test]
fn head_replacement_scenario() {
    let mut list = NoteSkipList::new();
    list.insert(note(5, 10));
    list.insert(note(1, 2));
    assert_eq!(collect(&list), vec![note(1, 2), note(5, 10)]);
    let mut it = list.iter();
    assert_eq!(it.next(), Some(note(1, 2)));
}

#[test]
fn head_replacement_takes_over_shortcuts() {
    let mut list = NoteSkipList::new();
    list.insert_at_level(note(5, 10), 0);
    list.insert_at_level(note(20, 30), 3);
    list.insert_at_level(note(1, 2), 1);
    let expected = "|1, 2|-------------------->x\n|1, 2|---------->|20, 30|->x\n|1, 2|---------->|20, 30|->x\n|1, 2|->|5, 10|->|20, 30|->x\n|1, 2|->|5, 10|->|20, 30|->x";
    assert_eq!(list.debug_string(), expected);
    assert_eq!(collect(&list), vec![note(1, 2), note(5, 10), note(20, 30)]);
}

#[test]
fn splice_links_each_chosen_level() {
    let mut list = NoteSkipList::new();
    list.insert_at_level(note(1, 2), 0);
    list.insert_at_level(note(3, 4), 2);
    let expected = "|1, 2|--------->x\n|1, 2|--------->x\n|1, 2|->|3, 4|->x\n|1, 2|->|3, 4|->x\n|1, 2|->|3, 4|->x";
    assert_eq!(list.debug_string(), expected);
}

#[test]
fn rendering_of_empty_list() {
    let list = NoteSkipList::new();
    assert_eq!(list.debug_string(), "x\nx\nx\nx\nx");
    assert_eq!(list.len(), 0);
    assert!(list.head().is_none());
}

#[test]
fn iterator_ends_and_stays_ended() {
    let mut list = NoteSkipList::new();
    list.insert(note(7, 9));
    let mut it = list.iter();
    assert_eq!(it.next(), Some(note(7, 9)));
    assert_eq!(it.next(), None);
    assert_eq!(it.next(), None);
}

#[test]
fn node_iterator_follows_level_zero() {
    let mut list = NoteSkipList::new();
    list.insert(note(4, 6));
    list.insert(note(0, 1));
    let mut it = list.iter_nodes();
    let mut count = 0;
    while let Some(node) = it.next() {
        assert!(node.val_slot_key.key() < 2);
        count += 1;
    }
    assert_eq!(count, 2);
}

#[test]
fn from_parts_rejections() {
    assert!(NoteSkipList::from_parts(&vec![note(1, 2)], &vec![]).is_none());
    assert!(NoteSkipList::from_parts(&vec![note(1, 2)], &vec![5]).is_none());
    assert!(NoteSkipList::from_parts(&vec![note(3, 2)], &vec![0]).is_none());
    assert!(NoteSkipList::from_parts(&vec![note(1, 4), note(3, 5)], &vec![0, 0]).is_none());
    assert!(NoteSkipList::from_parts(&vec![], &vec![]).is_some());
}

#[test]
fn search_records_predecessors() {
    let notes = vec![note(1, 2), note(2, 3), note(3, 4), note(4, 5)];
    let list = NoteSkipList::from_parts(&notes, &vec![4, 0, 1, 3]).unwrap();
    let head = list.head().unwrap();
    let mut levels = [head, head, head, head, head];
    list.search(head, 4, &mut levels);
    // slots are handed out in order, so (2, 3) sits in slot 1: the last node ending before 4
    assert_eq!(levels[0].key(), 1);
    assert_eq!(levels[1].key(), 0);
    assert_eq!(levels[4].key(), 0);
}

#[test]
fn note_label_is_decimal() {
    assert_eq!(note(12, 305).label(), "|12, 305|");
    assert_eq!(note(0, 18446744073709551615).label(), "|0, 18446744073709551615|");
}

#[test]
fn contains_beat_is_inclusive() {
    let n = note(3, 5);
    assert!(n.contains_beat(3));
    assert!(n.contains_beat(5));
    assert!(!n.contains_beat(2));
    assert!(!n.contains_beat(6));
}

#[test]
fn slab_key_round_trip() {
    let k: SlabKey<NoteBox> = SlabKey::from_key(0);
    assert_eq!(k.key(), 0);
    let k: SlabKey<NoteBox> = SlabKey::from_key(41);
    assert_eq!(k.key(), 41);
}

#[test]
fn remove_middle_node_relinks_every_level() {
    let notes = vec![note(1, 2), note(2, 3), note(3, 4), note(4, 5)];
    let mut list = NoteSkipList::from_parts(&notes, &vec![4, 0, 1, 3]).unwrap();
    assert!(list.remove(3));
    // (2, 3) also holds beat 3 and comes first
    assert_eq!(collect(&list), vec![note(1, 2), note(3, 4), note(4, 5)]);
    let mut list = NoteSkipList::from_parts(&notes, &vec![4, 0, 1, 3]).unwrap();
    assert!(list.remove(4));
    assert_eq!(collect(&list), vec![note(1, 2), note(2, 3), note(4, 5)]);
    let mut list = NoteSkipList::from_parts(&vec![note(1, 2), note(2, 3), note(5, 6), note(7, 8)], &vec![4, 0, 1, 3]).unwrap();
    assert!(list.remove(5));
    let expected = "|1, 2|----------------->x\n|1, 2|--------->|7, 8|->x\n|1, 2|--------->|7, 8|->x\n|1, 2|--------->|7, 8|->x\n|1, 2|->|2, 3|->|7, 8|->x";
    assert_eq!(list.debug_string(), expected);
}

#[test]
fn remove_head_hands_its_links_on() {
    let notes = vec![note(1, 2), note(2, 3), note(3, 4), note(4, 5)];
    let mut list = NoteSkipList::from_parts(&notes, &vec![4, 0, 1, 3]).unwrap();
    assert!(list.remove(1));
    let expected = "|2, 3|----------------->x\n|2, 3|--------->|4, 5|->x\n|2, 3|--------->|4, 5|->x\n|2, 3|->|3, 4|->|4, 5|->x\n|2, 3|->|3, 4|->|4, 5|->x";
    assert_eq!(list.debug_string(), expected);
}

#[test]
fn remove_misses_and_last() {
    let mut list = NoteSkipList::new();
    assert!(!list.remove(3));
    list.insert(note(2, 4));
    list.insert(note(8, 9));
    assert!(!list.remove(0));
    assert!(!list.remove(5));
    assert!(!list.remove(10));
    assert_eq!(list.len(), 2);
    assert!(list.remove(9));
    assert_eq!(collect(&list), vec![note(2, 4)]);
    assert!(list.remove(2));
    assert_eq!(list.len(), 0);
    assert!(list.head().is_none());
    assert_eq!(list.debug_string(), "x\nx\nx\nx\nx");
}

#[test]
fn freed_slots_are_reused() {
    let mut list = NoteSkipList::new();
    for i in 0..50u64 {
        list.insert(note(i * 10, i * 10 + 5));
    }
    for i in 0..50u64 {
        if i % 2 == 0 {
            assert!(list.remove(i * 10 + 1));
        }
    }
    for i in 0..25u64 {
        list.insert(note(i * 20 + 6, i * 20 + 8));
    }
    let all = collect(&list);
    assert_eq!(all.len(), 50);
    for w in all.windows(2) {
        assert!(w[0].end_beat < w[1].start_beat);
    }
    let mut it = list.iter_nodes();
    while let Some(node) = it.next() {
        assert!(node.val_slot_key.key() < 50);
    }
}

#[test]
fn node_without_cursor_draws_narrow_cells() {
    let list = NoteSkipList::from_parts(&vec![note(0, 10), note(20, 30)], &vec![4, 1]).unwrap();
    let head = list.head().unwrap();
    let mut cursors = init_node_dbg_ptrs(&head);
    let mut it = list.iter_nodes();
    it.next();
    let second = it.next().unwrap();
    let second_key = second.val_slot_key.key();
    assert_eq!(second_key, 1);
    let key: SlabKey<note_lines::skip_list::NoteSkipListNode> = SlabKey::from_key(1);
    assert_eq!(list.debug_node(key, &mut cursors), "->\n->\n->\n->\n->");
}

#[test]
fn touching_notes_insert_in_order() {
    let mut list = NoteSkipList::new();
    list.insert(note(1, 2));
    list.insert(note(2, 3));
    list.insert(note(3, 4));
    assert_eq!(collect(&list), vec![note(1, 2), note(2, 3), note(3, 4)]);
    let mut list = NoteSkipList::new();
    list.insert(note(0, 1));
    list.insert(note(1, 2));
    list.insert(note(2, 5));
    list.insert(note(2, 2));
    list.insert(note(5, 5));
    assert_eq!(collect(&list), vec![note(0, 1), note(1, 2), note(2, 2), note(2, 5), note(5, 5)]);
    let mut list = NoteSkipList::new();
    for (s, e) in [(4, 5), (3, 4), (2, 3), (1, 2)] {
        list.insert(note(s, e));
    }
    assert_eq!(collect(&list), vec![note(1, 2), note(2, 3), note(3, 4), note(4, 5)]);
}
