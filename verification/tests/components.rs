use rust_wfc::cell::{Cell, CellIndex};
use rust_wfc::cell_collapsed_collection::CellCollapsedCollection;
use rust_wfc::cell_collection::CellCollection;
use rust_wfc::compatible::Compatible;
use rust_wfc::direction::{Direction, DIRECTIONS};
use rust_wfc::dirty_cells::DirtyCells;
use rust_wfc::entropy_tracker::EntropyTracker;
use rust_wfc::pattern_bitset::{append_set_bits, PatternBitSet};
use rust_wfc::pattern_collection::{PatternCollection, PatternIndex};
use rust_wfc::propagator::Propagator;
use rust_wfc::wave::Wave;

fn p(t: usize) -> PatternIndex {
    PatternIndex { base: t }
}

fn c(i: usize) -> CellIndex {
    CellIndex { base: i }
}

fn bases(v: &Vec<PatternIndex>) -> Vec<usize> {
    v.iter().map(|x| x.base).collect()
}

/// Flat adjacency arrays from a rule: `allowed(d, t)` lists the neighbours of `t` on side `d`.
fn adjacency(t_count: usize, allowed: &dyn Fn(usize, usize) -> Vec<i32>) -> (Vec<i32>, Vec<i32>, Vec<i32>) {
    let mut data = Vec::new();
    let mut offsets = Vec::new();
    let mut lengths = Vec::new();
    for d in 0..4 {
        for t in 0..t_count {
            let list = allowed(d, t);
            offsets.push(data.len() as i32);
            lengths.push(list.len() as i32);
            data.extend(list);
        }
    }
    (data, offsets, lengths)
}

#[test]
fn direction_table_matches_lane_order() {
    assert_eq!(DIRECTIONS[0], Direction::West);
    assert_eq!(DIRECTIONS[1], Direction::South);
    assert_eq!(DIRECTIONS[2], Direction::East);
    assert_eq!(DIRECTIONS[3], Direction::North);
    for k in 0..4 {
        assert_eq!(DIRECTIONS[k].index(), k);
        assert_eq!(Direction::from_index(k), DIRECTIONS[k]);
    }
}

#[test]
fn direction_info_gives_deltas_and_opposites() {
    let w = Direction::West.info();
    assert_eq!((w.dx, w.dy, w.opposite), (-1, 0, Direction::East));
    let s = Direction::South.info();
    assert_eq!((s.dx, s.dy, s.opposite), (0, 1, Direction::North));
    let e = Direction::East.info();
    assert_eq!((e.dx, e.dy, e.opposite), (1, 0, Direction::West));
    let n = Direction::North.info();
    assert_eq!((n.dx, n.dy, n.opposite), (0, -1, Direction::South));
}

#[test]
fn opposite_of_opposite_is_the_direction() {
    for d in DIRECTIONS {
        assert_eq!(d.info().opposite.info().opposite, d);
        assert_ne!(d.info().opposite, d);
    }
}

#[test]
fn cell_index_to_coords_is_row_major() {
    assert_eq!(c(0).to_coords(4), (0, 0));
    assert_eq!(c(3).to_coords(4), (3, 0));
    assert_eq!(c(4).to_coords(4), (0, 1));
    assert_eq!(c(11).to_coords(4), (3, 2));
}

#[test]
fn cell_coords_and_index_round_trip() {
    let cell = Cell::new(5);
    for i in 0..35 {
        let (x, y) = cell.get_coords(c(i));
        assert_eq!((x as usize, y as usize), (i % 5, i / 5));
        assert_eq!(cell.get_index(x, y), c(i));
    }
}

#[test]
fn cell_collection_new_len_fill_get_set() {
    let mut col = CellCollection::new_with_value(4, 7i32);
    assert_eq!(col.len(), 4);
    assert_eq!(col.data, vec![7, 7, 7, 7]);
    col.set(c(2), -1);
    assert_eq!(col.get(c(2)), -1);
    assert_eq!(col.as_ptr(), &[7, 7, -1, 7]);
    col.fill(3);
    assert_eq!(col.data, vec![3, 3, 3, 3]);
    let empty = CellCollection::new_with_value(0, true);
    assert_eq!(empty.len(), 0);
}

#[test]
fn pattern_collection_get_and_set() {
    let mut col = PatternCollection { data: vec![1.5f64, 2.5, 4.0] };
    assert_eq!(col.get(p(1)), 2.5);
    col.set(p(1), 8.0);
    assert_eq!(col.data, vec![1.5, 8.0, 4.0]);
}

#[test]
fn pattern_bitset_starts_empty_and_sets_bits() {
    let mut set = PatternBitSet::new(70);
    assert_eq!(set.data, vec![0u64, 0]);
    assert_eq!(set.t_count(), 70);
    set.set(p(0));
    set.set(p(63));
    set.set(p(64));
    set.set(p(69));
    assert_eq!(set.data, vec![1u64 | (1u64 << 63), 1u64 | (1u64 << 5)]);
    for t in 0..70 {
        assert_eq!(set.contains(p(t)), t == 0 || t == 63 || t == 64 || t == 69);
    }
}

#[test]
fn pattern_bitset_ignores_indices_outside_the_vocabulary() {
    let mut set = PatternBitSet::new(3);
    set.set(p(3));
    set.set(p(64));
    set.set(p(usize::MAX));
    assert_eq!(set.data, vec![0u64]);
    assert!(!set.contains(p(3)));
    assert!(!set.contains(p(1000)));
}

#[test]
fn pattern_bitset_word_count_rounds_up() {
    assert_eq!(PatternBitSet::new(0).data.len(), 0);
    assert_eq!(PatternBitSet::new(1).data.len(), 1);
    assert_eq!(PatternBitSet::new(64).data.len(), 1);
    assert_eq!(PatternBitSet::new(65).data.len(), 2);
    assert_eq!(PatternBitSet::new(128).data.len(), 2);
}

#[test]
fn append_set_bits_lists_bits_in_ascending_order_below_the_limit() {
    let mut out = vec![p(99)];
    append_set_bits(0b1010_0101, 64, 70, &mut out);
    assert_eq!(bases(&out), vec![99, 64, 66, 69]);
    let mut all = Vec::new();
    append_set_bits(u64::MAX, 0, 64, &mut all);
    assert_eq!(bases(&all), (0..64).collect::<Vec<usize>>());
    let mut none = Vec::new();
    append_set_bits(0, 0, 64, &mut none);
    append_set_bits(u64::MAX, 128, 100, &mut none);
    assert!(none.is_empty());
}

#[test]
fn propagator_builds_masks_from_the_lists() {
    // pattern t allows t and t + 1 (mod 3) to the east, and what follows by symmetry to the west
    let (data, offsets, lengths) = adjacency(3, &|d, t| match d {
        2 => vec![t as i32, ((t + 1) % 3) as i32],
        0 => vec![t as i32, ((t + 2) % 3) as i32],
        _ => vec![],
    });
    let prop = Propagator::new(data, offsets, lengths, 3);
    assert_eq!(prop.t_count(), 3);
    for t in 0..3 {
        for t2 in 0..3 {
            assert_eq!(
                prop.get_mask(p(t), Direction::East).contains(p(t2)),
                t2 == t || t2 == (t + 1) % 3
            );
            assert_eq!(
                prop.get_mask(p(t), Direction::West).contains(p(t2)),
                t2 == t || t2 == (t + 2) % 3
            );
            assert!(!prop.get_mask(p(t), Direction::North).contains(p(t2)));
            assert!(!prop.get_mask(p(t), Direction::South).contains(p(t2)));
        }
        assert_eq!(prop.get_compatible_count(p(t), Direction::East), 2);
        assert_eq!(prop.get_compatible_count(p(t), Direction::West), 2);
        assert_eq!(prop.get_compatible_count(p(t), Direction::North), 0);
    }
}

#[test]
fn propagator_lookup_index_is_direction_major() {
    let (data, offsets, lengths) = adjacency(5, &|_, _| vec![]);
    let prop = Propagator::new(data, offsets, lengths, 5);
    assert_eq!(prop.get_lookup_idx(p(0), Direction::West), 0);
    assert_eq!(prop.get_lookup_idx(p(4), Direction::West), 4);
    assert_eq!(prop.get_lookup_idx(p(0), Direction::South), 5);
    assert_eq!(prop.get_lookup_idx(p(2), Direction::East), 12);
    assert_eq!(prop.get_lookup_idx(p(4), Direction::North), 19);
}

#[test]
fn propagator_for_each_yields_ascending_patterns() {
    let (data, offsets, lengths) = adjacency(130, &|d, t| {
        if d == 1 && t == 7 {
            vec![129, 3, 64, 3, 0, 65, 127]
        } else {
            vec![]
        }
    });
    let prop = Propagator::new(data, offsets, lengths, 130);
    let mut out = Vec::new();
    prop.for_each_compatible_pattern(p(7), Direction::South, &mut out);
    assert_eq!(bases(&out), vec![0, 3, 64, 65, 127, 129]);
    // the raw length counts the repeated entry
    assert_eq!(prop.get_compatible_count(p(7), Direction::South), 7);
    let mut other = vec![p(1)];
    prop.for_each_compatible_pattern(p(7), Direction::North, &mut other);
    assert_eq!(bases(&other), vec![1]);
}

#[test]
fn propagator_ignores_entries_outside_the_vocabulary() {
    let (data, offsets, lengths) = adjacency(2, &|_, t| vec![-1, t as i32, 2, 1000]);
    let prop = Propagator::new(data, offsets, lengths, 2);
    for d in DIRECTIONS {
        let mut out = Vec::new();
        prop.for_each_compatible_pattern(p(1), d, &mut out);
        assert_eq!(bases(&out), vec![1]);
        assert_eq!(prop.get_compatible_count(p(1), d), 4);
    }
}

#[test]
fn wave_starts_full_with_clear_padding() {
    let wave = Wave::new(3, 70);
    let mask = (1u64 << 6) - 1;
    assert_eq!(wave.as_ptr(), &[u64::MAX, mask, u64::MAX, mask, u64::MAX, mask]);
    for cell in 0..3 {
        for t in 0..70 {
            assert!(wave.is_candidate(c(cell), p(t)));
        }
        assert!(!wave.is_candidate(c(cell), p(70)));
        assert!(!wave.is_candidate(c(cell), p(127)));
        assert!(!wave.is_candidate(c(cell), p(5000)));
    }
    let exact = Wave::new(2, 64);
    assert_eq!(exact.as_ptr(), &[u64::MAX, u64::MAX]);
}

#[test]
fn wave_get_index_points_at_the_word_of_the_pattern() {
    let wave = Wave::new(4, 130);
    assert_eq!(wave.get_index(c(0), p(0)).base, 0);
    assert_eq!(wave.get_index(c(0), p(64)).base, 1);
    assert_eq!(wave.get_index(c(2), p(129)).base, 8);
    assert_eq!(wave.get_index(c(3), p(63)).base, 9);
}

#[test]
fn wave_eliminate_removes_one_candidate() {
    let mut wave = Wave::new(2, 5);
    wave.eliminate_candidate(c(1), p(3));
    for cell in 0..2 {
        for t in 0..5 {
            assert_eq!(wave.is_candidate(c(cell), p(t)), !(cell == 1 && t == 3));
        }
    }
    assert_eq!(wave.as_ptr(), &[0b11111, 0b10111]);
    wave.eliminate_candidate(c(1), p(3));
    assert_eq!(wave.as_ptr(), &[0b11111, 0b10111]);
}

#[test]
fn wave_fill_zero_clears_and_fill_one_restores() {
    let mut wave = Wave::new(2, 66);
    wave.fill(0);
    assert_eq!(wave.as_ptr(), &[0, 0, 0, 0]);
    wave.fill(1);
    assert_eq!(wave.as_ptr(), &[u64::MAX, 3, u64::MAX, 3]);
    wave.fill(255);
    assert_eq!(wave.as_ptr(), &[u64::MAX, 3, u64::MAX, 3]);
}

#[test]
fn wave_find_remaining_pattern_is_the_lowest_candidate() {
    let mut wave = Wave::new(2, 70);
    assert_eq!(wave.find_remaining_pattern(c(0)), 0);
    for t in 0..66 {
        wave.eliminate_candidate(c(1), p(t));
    }
    assert_eq!(wave.find_remaining_pattern(c(1)), 66);
    assert_eq!(wave.find_remaining_pattern(c(0)), 0);
    for t in 66..70 {
        wave.eliminate_candidate(c(1), p(t));
    }
    assert_eq!(wave.find_remaining_pattern(c(1)), -1);
}

#[test]
fn wave_collapse_to_pattern_lists_the_other_candidates() {
    let mut wave = Wave::new(2, 67);
    wave.eliminate_candidate(c(0), p(1));
    wave.eliminate_candidate(c(0), p(65));
    let before = wave.clone_data();
    let mut out = Vec::new();
    wave.collapse_to_pattern(c(0), p(64), &mut out);
    let mut expected: Vec<usize> = (0..67).collect();
    expected.retain(|t| *t != 1 && *t != 65 && *t != 64);
    assert_eq!(bases(&out), expected);
    // the wave is not changed
    assert_eq!(wave.clone_data(), before);
    let mut all = Vec::new();
    wave.collapse_to_pattern(c(1), p(1000), &mut all);
    assert_eq!(bases(&all), (0..67).collect::<Vec<usize>>());
}

#[test]
fn wave_candidates_are_listed_in_ascending_order() {
    let mut wave = Wave::new(2, 130);
    assert_eq!(bases(&wave.candidates(c(0))), (0..130).collect::<Vec<usize>>());
    for t in 0..130 {
        if t % 7 != 3 {
            wave.eliminate_candidate(c(1), p(t));
        }
    }
    let expected: Vec<usize> = (0..130).filter(|t| t % 7 == 3).collect();
    assert_eq!(bases(&wave.candidates(c(1))), expected);
    assert_eq!(wave.candidates(c(0)).len(), 130);
    for t in 0..130 {
        wave.eliminate_candidate(c(0), p(t));
    }
    assert!(wave.candidates(c(0)).is_empty());
}

#[test]
fn wave_is_fully_undetermined_compares_count_and_vocabulary() {
    let wave = Wave::new(2, 3);
    let mut tracker = EntropyTracker::new(2, 3);
    assert!(wave.is_fully_undetermined(c(0), &tracker));
    tracker.ban_pattern(c(0), p(1));
    assert!(!wave.is_fully_undetermined(c(0), &tracker));
    assert!(wave.is_fully_undetermined(c(1), &tracker));
}

#[test]
fn entropy_tracker_counts_bans() {
    let mut tracker = EntropyTracker::new(3, 3);
    for i in 0..3 {
        assert_eq!(tracker.possible_pattern_count(c(i)), 3);
    }
    tracker.ban_pattern(c(1), p(0));
    assert_eq!(tracker.possible_pattern_count(c(1)), 2);
    assert!(!tracker.pattern_determined(c(1)));
    tracker.ban_pattern(c(1), p(2));
    assert!(tracker.pattern_determined(c(1)));
    assert!(!tracker.has_no_possible_patterns(c(1)));
    tracker.ban_pattern(c(1), p(1));
    assert!(tracker.has_no_possible_patterns(c(1)));
    assert!(!tracker.pattern_determined(c(1)));
    assert_eq!(tracker.possible_pattern_count(c(0)), 3);
    tracker.reset();
    for i in 0..3 {
        assert_eq!(tracker.possible_pattern_count(c(i)), 3);
    }
}

#[test]
fn entropy_tracker_counts_after_each_ban_of_a_log() {
    let mut tracker = EntropyTracker::new(3, 5);
    let log = vec![(c(1), p(0)), (c(0), p(3)), (c(1), p(4)), (c(1), p(2)), (c(0), p(0))];
    for (cell, pattern) in &log {
        tracker.ban_pattern(*cell, *pattern);
    }
    assert_eq!(tracker.counts_after(&log), vec![4, 4, 3, 2, 3]);
    assert_eq!(tracker.counts_after(&vec![]), Vec::<i32>::new());
    assert_eq!(tracker.counts_after(&vec![(c(2), p(1))]), vec![5]);
}

#[test]
fn compatible_starts_at_the_recorded_lengths() {
    let (data, offsets, lengths) = adjacency(3, &|d, t| (0..((d + t) % 4) as i32).collect());
    let prop = Propagator::new(data, offsets, lengths, 3);
    let comp = Compatible::new(4, 3, &prop);
    for cell in 0..4 {
        for t in 0..3 {
            for d in DIRECTIONS {
                assert_eq!(comp.get(c(cell), p(t), d) as usize, (d.index() + t) % 4);
                assert_eq!(comp.get_index(c(cell), p(t), d).base, d.index() * 12 + cell * 3 + t);
            }
        }
    }
}

#[test]
fn compatible_decrement_stops_at_zero() {
    let (data, offsets, lengths) = adjacency(2, &|_, _| vec![0, 1]);
    let prop = Propagator::new(data, offsets, lengths, 2);
    let mut comp = Compatible::new(2, 2, &prop);
    assert_eq!(comp.decrement(c(1), p(0), Direction::East), 1);
    assert_eq!(comp.decrement(c(1), p(0), Direction::East), 0);
    assert_eq!(comp.decrement(c(1), p(0), Direction::East), 0);
    assert_eq!(comp.get(c(1), p(0), Direction::East), 0);
    assert_eq!(comp.get(c(1), p(1), Direction::East), 2);
    assert_eq!(comp.get(c(0), p(0), Direction::East), 2);
    assert_eq!(comp.get(c(1), p(0), Direction::West), 2);
    let idx = comp.get_index(c(0), p(1), Direction::North);
    assert_eq!(comp.decrement_by_index(idx), 1);
    assert_eq!(comp.get(c(0), p(1), Direction::North), 1);
    comp.reset(&prop);
    for cell in 0..2 {
        for t in 0..2 {
            for d in DIRECTIONS {
                assert_eq!(comp.get(c(cell), p(t), d), 2);
            }
        }
    }
}

#[test]
fn compatible_new_empty_is_all_zero() {
    let comp = Compatible::new_empty(3, 2);
    for cell in 0..3 {
        for t in 0..2 {
            for d in DIRECTIONS {
                assert_eq!(comp.get(c(cell), p(t), d), 0);
            }
        }
    }
}

#[test]
fn dirty_cells_keep_each_cell_once_in_order() {
    let mut dirty = DirtyCells::new(5);
    assert_eq!(dirty.peek_changes(), Vec::<i32>::new());
    dirty.mark_dirty(c(3));
    dirty.mark_dirty(c(1));
    dirty.mark_dirty(c(3));
    dirty.mark_dirty(c(4));
    dirty.mark_dirty(c(1));
    assert_eq!(dirty.peek_changes(), vec![3, 1, 4]);
    assert_eq!(dirty.peek_changes(), vec![3, 1, 4]);
    assert_eq!(dirty.flush_to_js(), vec![3, 1, 4]);
    assert_eq!(dirty.flush_to_js(), Vec::<i32>::new());
    // a flushed cell can be marked again
    dirty.mark_dirty(c(1));
    assert_eq!(dirty.peek_changes(), vec![1]);
}

#[test]
fn dirty_cells_clear_and_mark_all() {
    let mut dirty = DirtyCells::new(4);
    dirty.mark_dirty(c(2));
    dirty.mark_all_dirty();
    assert_eq!(dirty.peek_changes(), vec![0, 1, 2, 3]);
    dirty.mark_dirty(c(2));
    assert_eq!(dirty.peek_changes(), vec![0, 1, 2, 3]);
    dirty.clear();
    assert_eq!(dirty.peek_changes(), Vec::<i32>::new());
    dirty.mark_dirty(c(2));
    assert_eq!(dirty.flush_to_js(), vec![2]);
}

#[test]
fn collapsed_collection_refresh_keeps_open_cells_in_order() {
    let mut cells = CellCollapsedCollection::new(5);
    assert_eq!(cells.get_uncollapsed_cells(), &[c(0), c(1), c(2), c(3), c(4)]);
    assert_eq!(cells.collapsed_count(), 0);
    let mut tracker = EntropyTracker::new(5, 3);
    tracker.ban_pattern(c(1), p(0));
    tracker.ban_pattern(c(1), p(1));
    tracker.ban_pattern(c(3), p(0));
    tracker.ban_pattern(c(4), p(0));
    tracker.ban_pattern(c(4), p(1));
    tracker.ban_pattern(c(4), p(2));
    cells.refresh(&tracker);
    assert_eq!(cells.get_uncollapsed_cells(), &[c(0), c(2), c(3)]);
    assert_eq!(cells.collapsed_count(), 2);
    tracker.ban_pattern(c(0), p(0));
    tracker.ban_pattern(c(0), p(1));
    cells.refresh(&tracker);
    assert_eq!(cells.get_uncollapsed_cells(), &[c(2), c(3)]);
    assert_eq!(cells.collapsed_count(), 3);
}

#[test]
fn collapsed_collection_reset_and_restore() {
    let mut cells = CellCollapsedCollection::new(4);
    let mut tracker = EntropyTracker::new(4, 2);
    tracker.ban_pattern(c(0), p(0));
    tracker.ban_pattern(c(2), p(0));
    cells.refresh(&tracker);
    assert_eq!(cells.get_uncollapsed_cells(), &[c(1), c(3)]);
    cells.reset_from_snapshot(&vec![c(3), c(0), c(1)]);
    assert_eq!(cells.get_uncollapsed_cells(), &[c(3), c(0), c(1)]);
    assert_eq!(cells.collapsed_count(), 1);
    cells.reset(4);
    assert_eq!(cells.get_uncollapsed_cells(), &[c(0), c(1), c(2), c(3)]);
    assert_eq!(cells.collapsed_count(), 0);
    cells.reset_from_snapshot(&vec![]);
    assert_eq!(cells.get_uncollapsed_cells(), &[] as &[CellIndex]);
    assert_eq!(cells.collapsed_count(), 4);
}
