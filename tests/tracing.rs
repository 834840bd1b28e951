use the_witness::{
    check_path, check_solution, find_components, Dot, DotIndex, LineIndex, PaneIndex, Puzzle,
    PuzzleSolutionManager, SolutionError,
};

/// Position of node `i` of the default grid.
fn node(puzzle: &Puzzle, i: u16) -> Dot {
    puzzle.dots[i as usize]
}

/// A small deterministic source of pseudo-random step sizes.
struct Steps(u64);

impl Steps {
    fn next(&mut self) -> i64 {
        self.0 ^= self.0 << 13;
        self.0 ^= self.0 >> 7;
        self.0 ^= self.0 << 17;
        500 + (self.0 % 2500) as i64
    }
}

/// Drags the cursor along a route of grid nodes, in random-sized steps
/// pointing at the next node, until the tracer rests on it.
fn drag_along(manager: &mut PuzzleSolutionManager, puzzle: &Puzzle, route: &[u16], steps: &mut Steps) {
    for pair in route.windows(2) {
        let a = node(puzzle, pair[0]);
        let b = node(puzzle, pair[1]);
        let dx = (b.x - a.x).signum();
        let dy = (b.y - a.y).signum();
        let mut guard = 0;
        while !(manager.now_at_dot() && *manager.dot_path().last().unwrap() == DotIndex(pair[1])) {
            let s = steps.next();
            manager.update_mouse(Dot::new(dx * s, dy * s));
            guard += 1;
            assert!(guard < 1000, "the cursor did not reach node {}", pair[1]);
        }
    }
}

fn start(manager: &mut PuzzleSolutionManager, puzzle: &Puzzle) {
    let s = node(puzzle, 0);
    assert!(manager.click(Dot::new(s.x + 1000, s.y - 1000)));
}

/// A route that visits node 2, uses edge 5-10, avoids the broken edge 8-13
/// and walls the white square off from the black one.
const GOOD_ROUTE: [u16; 13] = [0, 1, 2, 7, 6, 5, 10, 15, 20, 21, 22, 23, 24];

/// The same constraints met, but the two squares share a region.
const MERGING_ROUTE: [u16; 13] = [0, 5, 10, 11, 6, 1, 2, 3, 4, 9, 14, 19, 24];

fn traced(puzzle: &Puzzle, route: &[u16], seed: u64) -> (Vec<DotIndex>, Vec<LineIndex>, bool) {
    let mut manager = PuzzleSolutionManager::new(puzzle);
    start(&mut manager, puzzle);
    let mut steps = Steps(seed);
    drag_along(&mut manager, puzzle, route, &mut steps);
    drag_along(&mut manager, puzzle, &[24, 25], &mut steps);
    (manager.dot_path().clone(), manager.line_path().clone(), manager.now_at_dot())
}

#[test]
fn find_random_path() {
    let puzzle = Puzzle::default();
    for seed in 1..20u64 {
        let mut manager = PuzzleSolutionManager::new(&puzzle);
        while !manager.is_solving() {
            start(&mut manager, &puzzle);
        }
        let mut steps = Steps(seed * 7919);
        drag_along(&mut manager, &puzzle, &GOOD_ROUTE, &mut steps);
        drag_along(&mut manager, &puzzle, &[24, 25], &mut steps);
        assert!(puzzle.end_dots.contains(manager.dot_path().last().unwrap()));
        let correct_solution = check_solution(&manager);
        assert!(correct_solution.is_ok());
    }
}

#[test]
fn merged_regions_fail_with_pane_error() {
    let puzzle = Puzzle::default();
    let mut manager = PuzzleSolutionManager::new(&puzzle);
    start(&mut manager, &puzzle);
    let mut steps = Steps(42);
    drag_along(&mut manager, &puzzle, &MERGING_ROUTE, &mut steps);
    drag_along(&mut manager, &puzzle, &[24, 25], &mut steps);
    assert!(matches!(check_solution(&manager), Err(SolutionError::PaneError)));
    assert!(!manager.click(Dot::new(0, 0)));
    assert!(!manager.is_solving());
    assert!(!manager.is_drawing_solution());
    assert!(manager.dot_path().is_empty());
}

#[test]
fn solved_trace_stays_on_display() {
    let puzzle = Puzzle::default();
    let mut manager = PuzzleSolutionManager::new(&puzzle);
    start(&mut manager, &puzzle);
    let mut steps = Steps(5);
    drag_along(&mut manager, &puzzle, &GOOD_ROUTE, &mut steps);
    drag_along(&mut manager, &puzzle, &[24, 25], &mut steps);
    let path = manager.dot_path().clone();
    assert!(!manager.click(Dot::new(0, 0)));
    assert!(!manager.is_solving());
    assert!(manager.is_drawing_solution());
    assert_eq!(manager.dot_path(), &path);
    assert_eq!(path.len(), 14);
}

#[test]
fn click_far_from_start_does_nothing() {
    let puzzle = Puzzle::default();
    let mut manager = PuzzleSolutionManager::new(&puzzle);
    assert!(!manager.click(Dot::new(60_000, 60_000)));
    assert!(!manager.click(Dot::new(20_000 + 5_401, 20_000)));
    assert!(!manager.is_solving());
    assert!(manager.click(Dot::new(20_000 + 5_400, 20_000)));
    assert_eq!(manager.dot_path(), &vec![DotIndex(0)]);
    assert!(manager.now_at_dot());
}

#[test]
fn leave_radius_threshold() {
    let puzzle = Puzzle::default();
    let mut manager = PuzzleSolutionManager::new(&puzzle);
    start(&mut manager, &puzzle);
    // Node 0 has an edge to node 5 (along x) and one to node 1 (along y).
    for i in 1..=4 {
        manager.update_mouse(Dot::new(1000, 0));
        assert!(manager.now_at_dot());
        assert_eq!(manager.dot_pos(), Dot::new(1000 * i, 0));
        assert!(manager.line_path().is_empty());
    }
    manager.update_mouse(Dot::new(1000, 0));
    assert!(!manager.now_at_dot());
    assert_eq!(manager.line_path(), &vec![LineIndex(DotIndex(0), DotIndex(5))]);
    assert_eq!(manager.line_path()[0].get1(), DotIndex(5));
    // 1000 steps along an edge of 20000 steps.
    assert_eq!(manager.line_progress(), 50_000);
    manager.update_mouse(Dot::new(1000, 0));
    assert_eq!(manager.line_progress(), 100_000);
    assert!(manager.line_path().iter().all(|l| !l.contains(DotIndex(1))));
}

#[test]
fn backtrack_restores_paths() {
    let puzzle = Puzzle::default();
    let mut manager = PuzzleSolutionManager::new(&puzzle);
    start(&mut manager, &puzzle);
    let mut steps = Steps(9);
    drag_along(&mut manager, &puzzle, &[0, 1, 2], &mut steps);
    let dots_before = manager.dot_path().clone();
    let lines_before = manager.line_path().clone();
    drag_along(&mut manager, &puzzle, &[2, 7], &mut steps);
    assert_eq!(manager.dot_path().len(), 4);
    drag_along(&mut manager, &puzzle, &[7, 2], &mut steps);
    assert_eq!(manager.dot_path(), &dots_before);
    assert_eq!(manager.line_path(), &lines_before);
}

#[test]
fn broken_edge_cannot_be_crossed() {
    let puzzle = Puzzle::default();
    let mut manager = PuzzleSolutionManager::new(&puzzle);
    start(&mut manager, &puzzle);
    let mut steps = Steps(3);
    drag_along(&mut manager, &puzzle, &[0, 5, 6, 7, 8], &mut steps);
    // Edge 8-13 is broken: pushing along it stops in front of the gap.
    for _ in 0..100 {
        manager.update_mouse(Dot::new(2000, 0));
    }
    assert!(!manager.now_at_dot());
    assert_eq!(*manager.dot_path().last().unwrap(), DotIndex(8));
    // Stopped at 0.4 of the edge less half a line width (105000).
    assert_eq!(manager.line_progress(), 295_000);
}

#[test]
fn zero_motion_changes_nothing() {
    let puzzle = Puzzle::default();
    let mut manager = PuzzleSolutionManager::new(&puzzle);
    manager.update_mouse(Dot::new(5000, 0));
    assert!(manager.dot_path().is_empty());
    start(&mut manager, &puzzle);
    manager.update_mouse(Dot::new(0, 0));
    assert_eq!(manager.dot_pos(), Dot::new(0, 0));
    assert!(manager.now_at_dot());
}

#[test]
fn motion_against_every_edge_is_absorbed() {
    let puzzle = Puzzle::default();
    let mut manager = PuzzleSolutionManager::new(&puzzle);
    start(&mut manager, &puzzle);
    manager.update_mouse(Dot::new(-2000, -2000));
    assert_eq!(manager.dot_pos(), Dot::new(-2000, -2000));
    manager.update_mouse(Dot::new(-2000, -2000));
    assert_eq!(manager.dot_pos(), Dot::new(-2000, -2000));
    assert!(manager.now_at_dot());
    assert!(manager.line_path().is_empty());
}

#[test]
fn incomplete_path_is_rejected() {
    let puzzle = Puzzle::default();
    let mut manager = PuzzleSolutionManager::new(&puzzle);
    assert!(matches!(check_solution(&manager), Err(SolutionError::Incomplete)));
    start(&mut manager, &puzzle);
    assert!(matches!(check_solution(&manager), Err(SolutionError::Incomplete)));
    manager.update_mouse(Dot::new(6000, 0));
    assert!(!manager.now_at_dot());
    assert!(matches!(check_solution(&manager), Err(SolutionError::Incomplete)));
}

fn lines_of(route: &[u16]) -> Vec<LineIndex> {
    route.windows(2).map(|p| LineIndex(DotIndex(p[0]), DotIndex(p[1]))).collect()
}

fn dots_of(route: &[u16]) -> Vec<DotIndex> {
    route.iter().map(|&d| DotIndex(d)).collect()
}

#[test]
fn traced_route_matches_built_paths() {
    let puzzle = Puzzle::default();
    let mut route = GOOD_ROUTE.to_vec();
    route.push(25);
    let (dots, lines, at_dot) = traced(&puzzle, &GOOD_ROUTE, 11);
    assert!(at_dot);
    assert_eq!(dots, dots_of(&route));
    assert_eq!(lines, lines_of(&route));
    assert!(check_path(&puzzle, true, &dots, &lines).is_ok());
}

#[test]
fn each_error_variant() {
    let puzzle = Puzzle::default();
    // Misses node 2.
    let route = [0, 5, 10, 11, 12, 13, 14, 19, 24, 25];
    let r = check_path(&puzzle, true, &dots_of(&route), &lines_of(&route));
    assert!(matches!(r, Err(SolutionError::DotError(DotIndex(2)))));
    // Visits node 2 but misses edge 5-10.
    let route = [0, 1, 2, 3, 4, 9, 14, 19, 24, 25];
    let r = check_path(&puzzle, true, &dots_of(&route), &lines_of(&route));
    match r {
        Err(SolutionError::LineError(l)) => assert!(l == LineIndex(DotIndex(10), DotIndex(5))),
        other => panic!("expected a line error, got {:?}", other),
    }
    // Ends short of the end node.
    let route = [0, 1, 2, 7];
    let r = check_path(&puzzle, true, &dots_of(&route), &lines_of(&route));
    assert!(matches!(r, Err(SolutionError::Incomplete)));
    // Mid-edge.
    let r = check_path(&puzzle, false, &dots_of(&GOOD_ROUTE), &lines_of(&GOOD_ROUTE));
    assert!(matches!(r, Err(SolutionError::Incomplete)));
}

#[test]
fn forbidden_edge_gives_line_error() {
    let puzzle = Puzzle::default();
    // Complete, visits node 2 and edge 5-10, then crosses broken edge 8-13.
    let route = [0, 1, 2, 7, 6, 5, 10, 11, 12, 13, 8, 9, 14, 19, 24, 25];
    let r = check_path(&puzzle, true, &dots_of(&route), &lines_of(&route));
    match r {
        Err(SolutionError::LineError(l)) => assert!(l == LineIndex(DotIndex(8), DotIndex(13))),
        other => panic!("expected a line error, got {:?}", other),
    }
    // The same path without the broken edge passes the edge checks.
    let mut good = GOOD_ROUTE.to_vec();
    good.push(25);
    assert!(check_path(&puzzle, true, &dots_of(&good), &lines_of(&good)).is_ok());
}

#[test]
fn constraint_order_does_not_change_verdict() {
    let puzzle = Puzzle::default();
    let mut reordered = Puzzle::default();
    reordered.line_complexity.reverse();
    reordered.pane_complexity.reverse();
    let mut good = GOOD_ROUTE.to_vec();
    good.push(25);
    let mut merging = MERGING_ROUTE.to_vec();
    merging.push(25);
    for route in [good, merging] {
        let a = check_path(&puzzle, true, &dots_of(&route), &lines_of(&route));
        let b = check_path(&reordered, true, &dots_of(&route), &lines_of(&route));
        assert_eq!(a.is_ok(), b.is_ok());
    }
    // Two violations: which one surfaces follows the list order.
    let route = [0, 1, 2, 7, 6, 11, 12, 13, 8, 9, 14, 19, 24, 25];
    let a = check_path(&puzzle, true, &dots_of(&route), &lines_of(&route));
    let b = check_path(&reordered, true, &dots_of(&route), &lines_of(&route));
    assert!(a.is_err() && b.is_err());
    match (a, b) {
        (Err(SolutionError::LineError(x)), Err(SolutionError::LineError(y))) => {
            assert!(x == LineIndex(DotIndex(5), DotIndex(10)));
            assert!(y == LineIndex(DotIndex(8), DotIndex(13)));
        }
        other => panic!("expected two line errors, got {:?}", other),
    }
}

#[test]
fn test_find_components() {
    let puzzle = Puzzle::default();
    let empty_path = Vec::new();
    let vecs = find_components(&puzzle, &empty_path);
    assert_eq!(1, vecs.len());
    assert_eq!(puzzle.panes.len(), vecs[0].len());
}

#[test]
fn components_partition_every_pane() {
    let puzzle = Puzzle::default();
    let mut good = GOOD_ROUTE.to_vec();
    good.push(25);
    let comps = find_components(&puzzle, &lines_of(&good));
    assert_eq!(comps.len(), 2);
    let mut seen = vec![0; puzzle.panes.len()];
    for comp in &comps {
        for p in comp {
            seen[p.0 as usize] += 1;
        }
    }
    assert!(seen.iter().all(|&c| c == 1));
    let walled = comps.iter().find(|c| c.contains(&PaneIndex(4))).unwrap();
    let mut walled: Vec<u16> = walled.iter().map(|p| p.0).collect();
    walled.sort();
    assert_eq!(walled, vec![0, 4]);
}

#[test]
fn drawn_segments_follow_the_cursor() {
    let puzzle = Puzzle::default();
    let mut manager = PuzzleSolutionManager::new(&puzzle);
    start(&mut manager, &puzzle);
    assert_eq!(manager.get_start_dot_dot_draw(), Dot::new(20_000, 20_000));
    // Resting on node 0, leaning toward node 1.
    manager.update_mouse(Dot::new(0, 3000));
    assert_eq!(
        manager.get_lines_to_draw(),
        vec![(Dot::new(20_000, 20_000), Dot::new(20_000, 23_000))]
    );
    // Leaning against every edge draws nothing.
    manager.update_mouse(Dot::new(0, -3000));
    manager.update_mouse(Dot::new(-1000, -1000));
    assert!(manager.get_lines_to_draw().is_empty());
    // On edge 0-5, three tenths of the way along.
    manager.update_mouse(Dot::new(1000, 1000));
    manager.update_mouse(Dot::new(6000, 0));
    assert!(!manager.now_at_dot());
    assert_eq!(manager.line_progress(), 300_000);
    assert_eq!(
        manager.get_lines_to_draw(),
        vec![(Dot::new(20_000, 20_000), Dot::new(26_000, 20_000))]
    );
}

#[test]
fn finishing_reports_the_verdict() {
    let puzzle = Puzzle::default();
    let mut manager = PuzzleSolutionManager::new(&puzzle);
    start(&mut manager, &puzzle);
    let mut steps = Steps(77);
    drag_along(&mut manager, &puzzle, &MERGING_ROUTE, &mut steps);
    drag_along(&mut manager, &puzzle, &[24, 25], &mut steps);
    assert!(matches!(manager.finish_trace(), Err(SolutionError::PaneError)));
    assert!(manager.dot_path().is_empty() && manager.line_path().is_empty());

    start(&mut manager, &puzzle);
    drag_along(&mut manager, &puzzle, &GOOD_ROUTE, &mut steps);
    drag_along(&mut manager, &puzzle, &[24, 25], &mut steps);
    assert!(manager.finish_trace().is_ok());
    assert!(manager.is_drawing_solution() && !manager.is_solving());
    // A click after a solved trace starts a new one.
    assert!(manager.click(Dot::new(20_000, 20_000)));
    assert_eq!(manager.dot_path(), &vec![DotIndex(0)]);
}
