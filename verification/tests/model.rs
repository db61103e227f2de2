use rust_wfc::cell::CellIndex;
use rust_wfc::direction::{Direction, DIRECTIONS};
use rust_wfc::pattern_collection::PatternIndex;
use rust_wfc::wave::Wave;
use rust_wfc::wfc_model::{IterationResult, WFCModel};

fn p(t: usize) -> PatternIndex {
    PatternIndex { base: t }
}

fn c(i: usize) -> CellIndex {
    CellIndex { base: i }
}

/// Flat adjacency arrays from a rule: `allowed(d, t)` lists the neighbours of `t` on side `d`.
fn adjacency(t_count: usize, allowed: &dyn Fn(usize, usize) -> Vec<i32>) -> (Vec<i32>, Vec<i32>, Vec<i32>) {
    let mut data = Vec::new();
    let mut offsets = Vec::new();
    let mut lengths = Vec::new();
    for d in 0..4 {
        for t in 0..t_count {
            let list = allowed(d, t);
            offsets.push(data.len() as i32);
            lengths.push(list.len() as i32);
            data.extend(list);
        }
    }
    (data, offsets, lengths)
}

fn model(
    width: usize,
    height: usize,
    t_count: usize,
    allowed: &dyn Fn(usize, usize) -> Vec<i32>,
    periodic: bool,
    max_snapshots: usize,
    interval: usize,
) -> WFCModel {
    let (data, offsets, lengths) = adjacency(t_count, allowed);
    WFCModel::new(width, height, t_count, data, offsets, lengths, periodic, max_snapshots, interval)
}

/// Every pattern next to every pattern.
fn free(t_count: usize) -> impl Fn(usize, usize) -> Vec<i32> {
    move |_, _| (0..t_count as i32).collect()
}

/// A pattern only next to itself.
fn same_only(_: usize, t: usize) -> Vec<i32> {
    vec![t as i32]
}

/// Patterns next to each other when they differ by at most one.
fn near(t_count: usize) -> impl Fn(usize, usize) -> Vec<i32> {
    move |_, t| (0..t_count as i32).filter(|u| (*u - t as i32).abs() <= 1).collect()
}

fn count(m: &WFCModel, i: usize) -> i32 {
    m.state().entropy_tracker.possible_pattern_count(c(i))
}

fn candidates(m: &WFCModel, i: usize) -> Vec<usize> {
    let t_count = m.propagator().t_count();
    (0..t_count).filter(|t| m.state().wave.is_candidate(c(i), p(*t))).collect()
}

fn observed(m: &WFCModel) -> Vec<i32> {
    m.state().observed.data.clone()
}

/// Scores the cells by their candidate count.
fn scores(m: &WFCModel) -> Vec<u64> {
    (0..m.get_total_cells()).map(|i| count(m, i) as u64).collect()
}

/// One iteration that observes the cell with the fewest candidates and draws
/// the candidate at position `pick` (modulo their number).
fn iterate(m: &mut WFCModel, pick: usize, snapshots: bool) -> IterationResult {
    let target = m.find_observe_target(&scores(m));
    let chosen = match target {
        Some(cell) if count(m, cell.base) != 0 => {
            let list = candidates(m, cell.base);
            p(list[pick % list.len()])
        }
        _ => p(0),
    };
    if snapshots {
        m.single_iteration_with_snapshots(target, chosen)
    } else {
        m.single_iteration(target, chosen)
    }
}

fn neighbor(width: usize, height: usize, periodic: bool, i: usize, d: Direction) -> Option<usize> {
    let info = d.info();
    let x = (i % width) as i64 + info.dx as i64;
    let y = (i / width) as i64 + info.dy as i64;
    let (w, h) = (width as i64, height as i64);
    if periodic {
        Some((((y % h + h) % h) * w + (x % w + w) % w) as usize)
    } else if x >= 0 && y >= 0 && x < w && y < h {
        Some((y * w + x) as usize)
    } else {
        None
    }
}

/// Holds the state of the model against a recount from the wave.
fn assert_consistent(m: &WFCModel, width: usize, height: usize, periodic: bool) {
    let n = m.get_total_cells();
    let t_count = m.propagator().t_count();
    let state = m.state();
    for i in 0..n {
        let list = candidates(m, i);
        assert_eq!(count(m, i) as usize, list.len(), "count of cell {}", i);
        let o = state.observed.data[i];
        if list.len() == 1 {
            assert_eq!(o, list[0] as i32, "observed of cell {}", i);
        } else if list.len() > 1 {
            assert_eq!(o, -1, "observed of cell {}", i);
        }
        let words = (t_count + 63) / 64;
        let last = state.wave.as_ptr()[(i + 1) * words - 1];
        if t_count % 64 != 0 {
            assert_eq!(last >> (t_count % 64), 0, "padding of cell {}", i);
        }
    }
    let pending = |i: usize, t: usize| state.stack.iter().any(|b| b.0.base == i && b.1.base == t);
    for j in 0..n {
        for t2 in 0..t_count {
            for e in DIRECTIONS {
                let expected = match neighbor(width, height, periodic, j, e) {
                    Some(i) => (0..t_count)
                        .filter(|t| {
                            (state.wave.is_candidate(c(i), p(*t)) || pending(i, *t))
                                && m.propagator().get_mask(p(t2), e).contains(p(*t))
                        })
                        .count(),
                    None => m.propagator().get_compatible_count(p(t2), e) as usize,
                };
                assert_eq!(
                    state.compatible.get(c(j), p(t2), e) as usize,
                    expected,
                    "count of cell {} pattern {} side {:?}",
                    j,
                    t2,
                    e
                );
            }
        }
    }
    let open: Vec<usize> = m.uncollapsed_cells().iter().map(|x| x.base).collect();
    for i in 0..n {
        if count(m, i) > 1 {
            assert!(open.contains(&i), "cell {} is listed as uncollapsed", i);
        }
    }
    assert_eq!(m.get_filled_count(), n - open.len());
}

type Shot = (Vec<u64>, Vec<u16>, Vec<i32>, Vec<i32>, Vec<i32>, Vec<usize>, usize, bool, usize, usize);

/// Everything that can be read of a model.
fn shot(m: &WFCModel) -> Shot {
    let n = m.get_total_cells();
    let t_count = m.propagator().t_count();
    let mut counts = Vec::new();
    for e in DIRECTIONS {
        for j in 0..n {
            for t in 0..t_count {
                counts.push(m.state().compatible.get(c(j), p(t), e));
            }
        }
    }
    (
        m.state().wave.clone_data(),
        counts,
        (0..n).map(|i| count(m, i)).collect(),
        observed(m),
        m.peek_changes(),
        m.uncollapsed_cells().iter().map(|x| x.base).collect(),
        m.get_filled_count(),
        m.is_generation_complete(),
        m.snapshot_count(),
        m.state().stack.len() + m.state().ban_log.len(),
    )
}

#[test]
fn one_cell_one_pattern_is_complete_at_once() {
    let mut m = model(1, 1, 1, &free(1), false, 0, 0);
    assert_eq!(observed(&m), vec![0]);
    assert_eq!(m.get_filled_count(), 1);
    assert!(!m.is_generation_complete());
    assert_eq!(iterate(&mut m, 0, false), IterationResult::SUCCESS);
    assert!(m.is_generation_complete());
    assert_eq!(observed(&m), vec![0]);
    let mut with = model(1, 1, 1, &free(1), false, 3, 0);
    assert_eq!(iterate(&mut with, 0, true), IterationResult::SUCCESS);
    assert_eq!(observed(&with), vec![0]);
    assert_eq!(with.snapshot_count(), 0);
}

#[test]
fn periodic_two_by_two_takes_one_pattern_everywhere() {
    for pick in 0..2 {
        let mut m = model(2, 2, 2, &same_only, true, 0, 0);
        assert_eq!(iterate(&mut m, pick, false), IterationResult::STEP);
        assert_eq!(observed(&m), vec![pick as i32; 4]);
        for i in 0..4 {
            assert_eq!(candidates(&m, i), vec![pick]);
        }
        assert_eq!(m.get_filled_count(), 4);
        assert_consistent(&m, 2, 2, true);
        assert_eq!(iterate(&mut m, 0, false), IterationResult::SUCCESS);
        assert!(m.is_generation_complete());
    }
}

#[test]
fn collapse_runs_along_a_bounded_row() {
    let east_west = |d: usize, t: usize| if d == 0 || d == 2 { vec![t as i32] } else { vec![] };
    let mut m = model(4, 1, 2, &east_west, false, 0, 0);
    assert_eq!(m.peek_changes(), Vec::<i32>::new());
    let r = m.single_iteration(Some(c(0)), p(0));
    assert_eq!(r, IterationResult::STEP);
    assert_eq!(observed(&m), vec![0, 0, 0, 0]);
    let mut dirty = m.peek_changes();
    assert_eq!(dirty[0], 0);
    dirty.sort();
    assert_eq!(dirty, vec![0, 1, 2, 3]);
    assert_eq!(m.get_changes().len(), 4);
    assert_eq!(m.get_changes(), Vec::<i32>::new());
    assert_eq!(m.get_filled_count(), 4);
    assert_consistent(&m, 4, 1, false);
}

/// Two patterns that must alternate cannot fill a ring of three cells.
fn alternate(d: usize, t: usize) -> Vec<i32> {
    if d == 0 || d == 2 {
        vec![1 - t as i32]
    } else {
        vec![]
    }
}

#[test]
fn contradiction_without_snapshots_fails() {
    let mut m = model(3, 1, 2, &alternate, true, 0, 0);
    assert_eq!(iterate(&mut m, 0, true), IterationResult::FAIL);
    assert_eq!(m.snapshot_count(), 0);
    assert!((0..3).any(|i| count(&m, i) == 0));
    let mut plain = model(3, 1, 2, &alternate, true, 5, 0);
    assert_eq!(iterate(&mut plain, 0, false), IterationResult::FAIL);
}

#[test]
fn contradiction_with_snapshots_reverts_until_choices_run_out() {
    let mut m = model(3, 1, 2, &alternate, true, 1, 0);
    assert_eq!(iterate(&mut m, 0, true), IterationResult::REVERT);
    assert_eq!(candidates(&m, 0), vec![1]);
    assert_eq!(candidates(&m, 1), vec![0, 1]);
    assert_eq!(candidates(&m, 2), vec![0, 1]);
    assert_eq!(m.snapshot_count(), 0);
    assert_consistent(&m, 3, 1, true);
    assert_eq!(iterate(&mut m, 0, true), IterationResult::REVERT);
    assert_eq!(candidates(&m, 0), Vec::<usize>::new());
    // a cell that lost its last candidate keeps the observed pattern it had
    assert_eq!(observed(&m), vec![1, -1, -1]);
    assert_consistent(&m, 3, 1, true);
    assert_eq!(iterate(&mut m, 0, true), IterationResult::FAIL);
    assert_eq!(m.peek_changes(), vec![0, 1, 2]);
}

#[test]
fn single_cell_torus_is_its_own_neighbour() {
    // alone on a torus, a pattern that must differ from its neighbour cannot stay
    let mut m = model(1, 1, 2, &alternate, true, 0, 0);
    assert_eq!(m.single_iteration(Some(c(0)), p(0)), IterationResult::FAIL);
    assert_eq!(candidates(&m, 0), Vec::<usize>::new());
    let mut same = model(1, 1, 2, &same_only, true, 0, 0);
    assert_eq!(same.single_iteration(Some(c(0)), p(1)), IterationResult::STEP);
    assert_eq!(observed(&same), vec![1]);
    assert_consistent(&same, 1, 1, true);
}

#[test]
fn iteration_without_snapshots_reverts_to_an_earlier_snapshot() {
    // two rings of three cells: along a ring, 0 and 1 must alternate and 2 stands next to 2
    let rings = |d: usize, t: usize| {
        if d == 1 || d == 3 {
            vec![0, 1, 2]
        } else if t == 2 {
            vec![2]
        } else {
            vec![1 - t as i32]
        }
    };
    let mut ring = model(3, 2, 3, &rings, true, 2, 0);
    assert_eq!(ring.single_iteration_with_snapshots(Some(c(0)), p(2)), IterationResult::STEP);
    assert_eq!(observed(&ring), vec![2, 2, 2, -1, -1, -1]);
    assert_eq!(ring.snapshot_count(), 1);
    let filled = ring.get_filled_count();
    assert_eq!(filled, 3);
    // no odd ring can alternate; the snapshot from before the first collapse is held
    assert_eq!(ring.single_iteration(Some(c(3)), p(0)), IterationResult::REVERT);
    assert_eq!(ring.snapshot_count(), 0);
    assert_eq!(candidates(&ring, 0), vec![0, 1]);
    for i in 1..6 {
        assert_eq!(candidates(&ring, i), vec![0, 1, 2]);
    }
    assert!(ring.get_filled_count() <= filled);
    assert_eq!(ring.get_filled_count(), 0);
    assert_consistent(&ring, 3, 2, true);
    // with no snapshot left the next contradiction fails
    assert_eq!(ring.single_iteration(Some(c(3)), p(1)), IterationResult::FAIL);
}

#[test]
fn snapshots_are_rate_limited_on_a_large_grid() {
    // an interval of 5% of 1600 cells
    let mut m = model(40, 40, 2, &free(2), false, 100, 80);
    let mut steps = 0;
    loop {
        let before = m.snapshot_count();
        let filled = m.get_filled_count();
        let r = iterate(&mut m, steps, true);
        if r == IterationResult::SUCCESS {
            break;
        }
        assert_eq!(r, IterationResult::STEP);
        steps += 1;
        assert_eq!(m.get_filled_count(), steps);
        assert_eq!(m.snapshot_count(), before + if filled % 80 == 0 { 1 } else { 0 });
        assert!(m.snapshot_count() <= 20);
    }
    assert_eq!(steps, 1600);
    assert_eq!(m.snapshot_count(), 20);
}

#[test]
fn full_history_evicts_the_oldest_snapshot() {
    let mut m = model(6, 1, 2, &free(2), false, 2, 0);
    assert_eq!(m.single_iteration_with_snapshots(Some(c(0)), p(0)), IterationResult::STEP);
    assert_eq!(m.snapshot_count(), 1);
    assert_eq!(m.single_iteration_with_snapshots(Some(c(1)), p(1)), IterationResult::STEP);
    assert_eq!(m.snapshot_count(), 2);
    assert_eq!(m.single_iteration_with_snapshots(Some(c(2)), p(0)), IterationResult::STEP);
    assert_eq!(m.snapshot_count(), 2);
    // the newest snapshot was taken before cell 2 collapsed
    assert!(m.revert());
    assert_eq!(candidates(&m, 2), vec![1]);
    assert_eq!(candidates(&m, 1), vec![1]);
    assert_eq!(candidates(&m, 0), vec![0]);
    // the one before it was taken before cell 1 collapsed
    assert!(m.revert());
    assert_eq!(candidates(&m, 2), vec![0, 1]);
    assert_eq!(candidates(&m, 1), vec![0]);
    assert_eq!(candidates(&m, 0), vec![0]);
    // the first one is gone
    assert!(!m.revert());
    assert_eq!(candidates(&m, 1), vec![0]);
    assert_consistent(&m, 6, 1, false);
}

#[test]
fn zero_max_snapshots_keeps_no_history() {
    let mut m = model(3, 3, 2, &free(2), false, 0, 0);
    for k in 0..9 {
        assert_eq!(iterate(&mut m, k, true), IterationResult::STEP);
        assert_eq!(m.snapshot_count(), 0);
    }
    assert!(!m.revert());
    assert_eq!(iterate(&mut m, 0, true), IterationResult::SUCCESS);
}

#[test]
fn state_agrees_with_a_recount_after_every_iteration() {
    for periodic in [false, true] {
        for seed in 0..6usize {
            let mut m = model(4, 3, 4, &near(4), periodic, 4, 2);
            assert_consistent(&m, 4, 3, periodic);
            let mut k = seed;
            for _ in 0..60 {
                k = k.wrapping_mul(6364136223846793005).wrapping_add(1442695040888963407);
                let r = iterate(&mut m, k >> 33, true);
                assert_consistent(&m, 4, 3, periodic);
                if r == IterationResult::SUCCESS || r == IterationResult::FAIL {
                    break;
                }
            }
        }
    }
}

#[test]
fn recount_holds_with_more_than_one_word_per_cell() {
    let mut m = model(3, 2, 70, &near(70), true, 2, 0);
    assert_consistent(&m, 3, 2, true);
    assert_eq!(m.single_iteration_with_snapshots(Some(c(4)), p(67)), IterationResult::STEP);
    assert_eq!(candidates(&m, 4), vec![67]);
    assert_eq!(observed(&m)[4], 67);
    assert_eq!(candidates(&m, 1), vec![66, 67, 68]);
    assert_consistent(&m, 3, 2, true);
    assert!(m.revert());
    assert_eq!(candidates(&m, 4).len(), 69);
    assert!(!candidates(&m, 4).contains(&67));
    assert_eq!(candidates(&m, 1).len(), 70);
    assert_consistent(&m, 3, 2, true);
    assert!(m.propagate());
    assert_consistent(&m, 3, 2, true);
}

#[test]
fn finished_grid_obeys_the_rules() {
    let mut m = model(5, 5, 5, &near(5), false, 8, 1);
    let mut k = 7usize;
    let mut done = false;
    for _ in 0..500 {
        k = k.wrapping_mul(6364136223846793005).wrapping_add(1442695040888963407);
        match iterate(&mut m, k >> 33, true) {
            IterationResult::SUCCESS => {
                done = true;
                break;
            }
            IterationResult::FAIL => panic!("these rules can always be met"),
            _ => {}
        }
    }
    assert!(done);
    let o = observed(&m);
    for i in 0..25 {
        assert!(o[i] >= 0);
        if i % 5 < 4 {
            assert!((o[i] - o[i + 1]).abs() <= 1);
        }
        if i + 5 < 25 {
            assert!((o[i] - o[i + 5]).abs() <= 1);
        }
    }
    assert_eq!(m.get_filled_count(), 25);
}

#[test]
fn clear_gives_the_state_of_a_new_model() {
    for t_count in [1usize, 2, 3] {
        let rules = near(t_count);
        let fresh = shot(&model(3, 3, t_count, &rules, true, 3, 0));
        let mut m = model(3, 3, t_count, &rules, true, 3, 0);
        for k in 0..5 {
            iterate(&mut m, k, true);
        }
        m.clear();
        assert_eq!(shot(&m), fresh);
        assert!(!m.revert());
        // and it behaves like a new one
        let mut other = model(3, 3, t_count, &rules, true, 3, 0);
        for k in 0..12 {
            assert_eq!(iterate(&mut m, k, true), iterate(&mut other, k, true));
            assert_eq!(shot(&m), shot(&other));
        }
    }
}

#[test]
fn revert_gives_the_state_before_the_snapshot_without_the_tried_pattern() {
    let mut m = model(4, 4, 3, &near(3), false, 4, 0);
    assert_eq!(m.single_iteration_with_snapshots(Some(c(5)), p(0)), IterationResult::STEP);
    let wave_before = m.state().wave.clone_data();
    let open_before: Vec<usize> = m.uncollapsed_cells().iter().map(|x| x.base).collect();
    let filled_before = m.get_filled_count();
    assert_eq!(m.single_iteration_with_snapshots(Some(c(10)), p(2)), IterationResult::STEP);
    assert!(m.get_filled_count() >= filled_before);
    assert!(m.revert());
    let mut pruned = wave_before.clone();
    pruned[10] &= !(1u64 << 2);
    assert_eq!(m.state().wave.clone_data(), pruned);
    let open: Vec<usize> = m.uncollapsed_cells().iter().map(|x| x.base).collect();
    assert_eq!(open, open_before);
    assert_eq!(m.get_filled_count(), filled_before);
    assert_eq!(m.state().stack, vec![(c(10), p(2))]);
    assert_eq!(m.peek_changes(), (0..16).collect::<Vec<i32>>());
    assert_consistent(&m, 4, 4, false);
    // the tried pattern cannot be chosen again, and the other choices go on as before
    assert_eq!(candidates(&m, 10), vec![0, 1]);
    assert_eq!(m.single_iteration_with_snapshots(Some(c(10)), p(1)), IterationResult::STEP);
    assert_consistent(&m, 4, 4, false);
}

#[test]
fn latest_snapshot_holds_the_state_before_the_collapse() {
    let mut m = model(3, 2, 3, &near(3), false, 4, 0);
    assert!(m.latest_snapshot().is_none());
    assert_eq!(m.single_iteration_with_snapshots(Some(c(1)), p(0)), IterationResult::STEP);
    let before = m.state().wave.clone_data();
    let open: Vec<CellIndex> = m.uncollapsed_cells().to_vec();
    assert_eq!(m.single_iteration_with_snapshots(Some(c(4)), p(1)), IterationResult::STEP);
    let snapshot = m.latest_snapshot().expect("two snapshots were taken");
    assert_eq!(snapshot.wave_data(), &before[..]);
    assert_eq!(snapshot.uncollapsed_cells(), &open[..]);
    assert_eq!(snapshot.target_cell(), c(4));
    assert_eq!(snapshot.tried_pattern(), p(1));
    // a wave takes the words of a snapshot as they are
    let mut wave = Wave::new(6, 3);
    wave.set_data(snapshot);
    assert_eq!(wave.clone_data(), before);
    assert!(wave.is_candidate(c(4), p(1)));
    assert!(!wave.is_candidate(c(1), p(2)));
}

#[test]
fn revert_without_snapshot_changes_nothing() {
    let mut m = model(2, 2, 2, &free(2), false, 0, 0);
    assert_eq!(m.single_iteration(Some(c(1)), p(1)), IterationResult::STEP);
    let before = shot(&m);
    assert!(!m.revert());
    assert_eq!(shot(&m), before);
}

#[test]
fn filled_count_rises_with_steps_and_falls_with_reverts() {
    let mut m = model(4, 4, 3, &near(3), true, 3, 2);
    let mut k = 3usize;
    for _ in 0..200 {
        k = k.wrapping_mul(6364136223846793005).wrapping_add(1442695040888963407);
        let before = m.get_filled_count();
        match iterate(&mut m, k >> 33, true) {
            IterationResult::STEP => assert!(m.get_filled_count() >= before),
            IterationResult::REVERT => assert!(m.get_filled_count() <= before),
            _ => break,
        }
    }
}

#[test]
fn observation_takes_the_first_cell_with_the_lowest_score() {
    let mut m = model(3, 2, 3, &free(3), false, 0, 0);
    assert_eq!(m.find_observe_target(&vec![5, 3, 9, 3, 3, 7]), Some(c(1)));
    assert_eq!(m.find_observe_target(&vec![0, 0, 0, 0, 0, 0]), Some(c(0)));
    assert_eq!(m.find_observe_target(&vec![9, 8, 7, 6, 5, 4]), Some(c(5)));
    assert_eq!(m.find_observe_target(&vec![u64::MAX; 6]), None);
    assert_eq!(m.find_observe_target(&vec![u64::MAX, u64::MAX, u64::MAX - 1, u64::MAX, 3, 3]), Some(c(4)));
    // collapsed cells are not observed, whatever their score
    assert_eq!(m.single_iteration(Some(c(1)), p(2)), IterationResult::STEP);
    assert_eq!(m.find_observe_target(&vec![5, 0, 9, 3, 3, 7]), Some(c(3)));
    for i in [0usize, 2, 3, 4, 5] {
        assert_eq!(m.single_iteration(Some(c(i)), p(0)), IterationResult::STEP);
    }
    assert_eq!(m.find_observe_target(&vec![0, 0, 0, 0, 0, 0]), None);
}

#[test]
fn ban_changes_wave_count_observed_stack_and_log() {
    let mut m = model(2, 1, 3, &free(3), false, 0, 0);
    assert_eq!(m.single_iteration(Some(c(0)), p(1)), IterationResult::STEP);
    assert_eq!(m.take_ban_log(), vec![(c(0), p(0)), (c(0), p(2))]);
    assert_eq!(m.take_ban_log(), vec![]);
    assert_eq!(observed(&m), vec![1, -1]);
    assert_eq!(count(&m, 0), 1);
    assert_eq!(count(&m, 1), 3);
    let mut state = m.state().clone();
    state.ban(c(1), p(2));
    assert_eq!(state.stack, vec![(c(1), p(2))]);
    assert_eq!(state.ban_log, vec![(c(1), p(2))]);
    assert_eq!(state.entropy_tracker.possible_pattern_count(c(1)), 2);
    assert_eq!(state.observed.data, vec![1, -1]);
    assert!(!state.wave.is_candidate(c(1), p(2)));
    // a pattern that is no candidate is not banned again
    state.ban(c(1), p(2));
    state.ban(c(1), p(7));
    assert_eq!(state.stack.len(), 1);
    assert_eq!(state.entropy_tracker.possible_pattern_count(c(1)), 2);
    state.ban(c(1), p(0));
    assert_eq!(state.observed.data, vec![1, 1]);
    assert!(state.entropy_tracker.pattern_determined(c(1)));
    state.ban(c(1), p(1));
    assert!(state.entropy_tracker.has_no_possible_patterns(c(1)));
    assert_eq!(state.dirty_cells.peek_changes(), vec![0, 1]);
}

#[test]
fn ban_log_after_revert_lists_what_the_wave_lacks() {
    let mut m = model(3, 1, 3, &free(3), false, 2, 0);
    assert_eq!(m.single_iteration_with_snapshots(Some(c(0)), p(1)), IterationResult::STEP);
    assert_eq!(m.single_iteration_with_snapshots(Some(c(2)), p(0)), IterationResult::STEP);
    m.take_ban_log();
    assert!(m.revert());
    assert_eq!(m.take_ban_log(), vec![(c(0), p(0)), (c(0), p(2)), (c(2), p(0))]);
}

#[test]
fn observed_pattern_frequencies_follow_the_weights() {
    // the weighted draw as a host makes it: the first candidate at which the
    // running sum of weights reaches u times the total
    let weights = [1.0f64, 2.0, 4.0];
    let mut seen = [0usize; 3];
    let runs = 10_000;
    let mut k = 11u64;
    for _ in 0..runs {
        let mut m = model(3, 3, 3, &free(3), false, 0, 0);
        k = k.wrapping_mul(6364136223846793005).wrapping_add(1442695040888963407);
        let u = (k >> 11) as f64 / (1u64 << 53) as f64;
        let list = candidates(&m, 4);
        let total: f64 = list.iter().map(|t| weights[*t]).sum();
        let mut x = u * total;
        let mut chosen = list[0];
        for t in &list {
            x -= weights[*t];
            if x <= 0.0 {
                chosen = *t;
                break;
            }
        }
        assert_eq!(m.single_iteration(Some(c(4)), p(chosen)), IterationResult::STEP);
        seen[observed(&m)[4] as usize] += 1;
    }
    for t in 0..3 {
        let expected = weights[t] / 7.0;
        let got = seen[t] as f64 / runs as f64;
        assert!((got - expected).abs() <= 0.05 * expected, "pattern {}: {}", t, got);
    }
}
