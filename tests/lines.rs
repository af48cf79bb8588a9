use note_lines::grid::get_line_index;
use note_lines::levels::LevelGenerator;
use note_lines::note::NoteBox;
use note_lines::lines::NoteLines;

fn note(start_beat: u64, end_beat: u64) -> NoteBox {
    NoteBox { start_beat, end_beat }
}

#[test]
fn gap_query_on_empty_line() {
    let lines = NoteLines::new(2);
    for beat in [0u64, 1, 7, 1000] {
        assert_eq!(lines.get_bounds(0, beat), Some((0, None)));
        assert_eq!(lines.get_bounds(1, beat), Some((0, None)));
    }
}

#[test]
fn gap_query_around_one_interval() {
    let mut lines = NoteLines::new(1);
    lines.insert(0, note(4, 8));
    assert_eq!(lines.get_bounds(0, 4), None);
    assert_eq!(lines.get_bounds(0, 6), None);
    assert_eq!(lines.get_bounds(0, 8), None);
    assert_eq!(lines.get_bounds(0, 3), Some((0, Some(4))));
    assert_eq!(lines.get_bounds(0, 0), Some((0, Some(4))));
    assert_eq!(lines.get_bounds(0, 9), Some((8, None)));
}

#[test]
fn gap_query_between_intervals() {
    let mut lines = NoteLines::new(1);
    for n in [note(20, 25), note(1, 2), note(5, 10), note(12, 14)] {
        lines.insert(0, n);
    }
    assert_eq!(lines.get_bounds(0, 3), Some((2, Some(5))));
    assert_eq!(lines.get_bounds(0, 11), Some((10, Some(12))));
    assert_eq!(lines.get_bounds(0, 15), Some((14, Some(20))));
    assert_eq!(lines.get_bounds(0, 30), Some((25, None)));
    assert_eq!(lines.get_bounds(0, 13), None);
    assert_eq!(lines.get_bounds(0, 20), None);
    assert_eq!(lines.get_bounds(0, 0), Some((0, Some(1))));
}

#[test]
fn lines_are_independent() {
    let mut lines = NoteLines::new(3);
    lines.insert(1, note(2, 4));
    assert_eq!(lines.get_bounds(0, 3), Some((0, None)));
    assert_eq!(lines.get_bounds(1, 3), None);
    assert_eq!(lines.get_bounds(2, 3), Some((0, None)));
    assert_eq!(lines.line(1).len(), 1);
    assert_eq!(lines.line(0).len(), 0);
}

#[test]
fn line_index_from_pixel_row() {
    assert_eq!(get_line_index(0), None);
    assert_eq!(get_line_index(16), None);
    assert_eq!(get_line_index(17), Some(0));
    assert_eq!(get_line_index(16 + 13), Some(1));
    assert_eq!(get_line_index(16 + 26 + 5), Some(2));
}

#[test]
fn level_from_flips_counts_until_first_true() {
    assert_eq!(LevelGenerator::level_from_flips(&vec![true, false, false, false]), 0);
    assert_eq!(LevelGenerator::level_from_flips(&vec![false, true, false, true]), 1);
    assert_eq!(LevelGenerator::level_from_flips(&vec![false, false, true, false]), 2);
    assert_eq!(LevelGenerator::level_from_flips(&vec![false, false, false, false]), 4);
}

#[test]
fn level_distribution_is_geometric() {
    let mut generator = LevelGenerator::new(7);
    let draws = 200_000usize;
    let mut counts = [0usize; 5];
    for _ in 0..draws {
        counts[generator.next_level()] += 1;
    }
    let expected = [0.5f64, 0.25, 0.125, 0.0625, 0.0625];
    for k in 0..5 {
        let freq = counts[k] as f64 / draws as f64;
        assert!((freq - expected[k]).abs() < 0.01, "level {} drawn with frequency {}", k, freq);
    }
}

#[test]
fn level_draws_repeat_for_a_seed() {
    let mut a = LevelGenerator::new(42);
    let mut b = LevelGenerator::new(42);
    let xs: Vec<usize> = (0..1000).map(|_| a.next_level()).collect();
    let ys: Vec<usize> = (0..1000).map(|_| b.next_level()).collect();
    assert_eq!(xs, ys);
    assert!(xs.iter().any(|&l| l > 0));
}
