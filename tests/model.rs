use the_witness::geometry::{closer_in_angle, isqrt, mul_div, Dot};
use the_witness::{DotIndex, LineIndex, Puzzle};

#[test]
fn default_puzzle_shape() {
    let puzzle = Puzzle::default();
    assert_eq!(puzzle.dots.len(), 26);
    assert_eq!(puzzle.lines.len(), 41);
    assert_eq!(puzzle.panes.len(), 16);
    assert_eq!(puzzle.pane_nears.len(), 16);
    assert_eq!(puzzle.start_dots, vec![DotIndex(0)]);
    assert_eq!(puzzle.end_dots, vec![DotIndex(25)]);
    assert_eq!(puzzle.dots[7], Dot::new(40_000, 60_000));
    assert_eq!(puzzle.dots[25], Dot::new(110_000, 100_000));
    assert!(puzzle.lines[5] == LineIndex(DotIndex(5), DotIndex(10)));
    assert!(puzzle.lines[8] == LineIndex(DotIndex(8), DotIndex(13)));
    assert!(puzzle.is_well_formed());
}

#[test]
fn malformed_puzzles_are_detected() {
    let mut puzzle = Puzzle::default();
    puzzle.lines.push(LineIndex(DotIndex(3), DotIndex(99)));
    assert!(!puzzle.is_well_formed());

    let mut puzzle = Puzzle::default();
    puzzle.pane_nears[0].pop();
    assert!(!puzzle.is_well_formed());

    let mut puzzle = Puzzle::default();
    puzzle.dots[1] = puzzle.dots[0];
    assert!(!puzzle.is_well_formed());

    // Two constraints on one edge, named in either order.
    let mut puzzle = Puzzle::default();
    puzzle.line_complexity.push((LineIndex(DotIndex(10), DotIndex(5)), LineComplexity::LineBreak));
    assert!(!puzzle.is_well_formed());

    let mut puzzle = Puzzle::default();
    puzzle.pane_complexity.push((PaneIndex(3), PaneComplexity::Square(ComplexityColor::White)));
    assert!(!puzzle.is_well_formed());
}

#[test]
fn line_index_equality_ignores_order() {
    let a = LineIndex(DotIndex(1), DotIndex(2));
    let b = LineIndex(DotIndex(2), DotIndex(1));
    let c = LineIndex(DotIndex(1), DotIndex(3));
    assert!(a == b);
    assert!(a != c);
    assert!(a.contains(DotIndex(2)));
    assert!(!a.contains(DotIndex(3)));
    assert_eq!(a.other(DotIndex(1)), DotIndex(2));
    assert_eq!(b.get0(), DotIndex(2));
    assert_eq!(b.get1(), DotIndex(1));
}

#[test]
fn vector_arithmetic() {
    let a = Dot::new(3, 4);
    assert_eq!(a.length2(), 25);
    assert_eq!(a.length(), 5);
    assert_eq!(Dot::new(3, 3).length(), 4);
    assert_eq!(a.scalar(&Dot::new(2, -1)), 2);
    assert_eq!(a.plus(&Dot::new(1, 1)), Dot::new(4, 5));
    assert_eq!(a.minus(&Dot::new(1, 1)), Dot::new(2, 3));
    assert_eq!(Dot::new(-7, 7).scale(1, 2), Dot::new(-3, 3));
    assert_eq!(Dot::new(0, 0).interp(&Dot::new(10, -10), 3, 10), Dot::new(3, -3));
    assert_eq!(mul_div(-10, 1, 3), -3);
    assert_eq!(isqrt(0), 0);
    assert_eq!(isqrt(15), 3);
    assert_eq!(isqrt(16), 4);
    assert_eq!(isqrt(2_000_000_000_000), 1_414_213);
}

#[test]
fn angle_comparison() {
    let d = Dot::new(10, 1);
    let east = Dot::new(20_000, 0);
    let north = Dot::new(0, 20_000);
    let west = Dot::new(-20_000, 0);
    assert!(closer_in_angle(&east, &north, &d));
    assert!(!closer_in_angle(&north, &east, &d));
    assert!(closer_in_angle(&north, &west, &d));
    // Equal angles on both sides of the motion: neither is closer.
    let up = Dot::new(1, 1);
    let down = Dot::new(1, -1);
    assert!(!closer_in_angle(&up, &down, &Dot::new(1, 0)));
    assert!(!closer_in_angle(&down, &up, &Dot::new(1, 0)));
}

use the_witness::{DotComplexity, LineComplexity, PaneComplexity, ComplexityColor, PaneIndex, SelectedObject};

#[test]
fn pointer_selects_node_then_edge_then_face() {
    let puzzle = Puzzle::default();
    assert!(matches!(puzzle.select_at(Dot::new(20_500, 19_000)), SelectedObject::Dot(DotIndex(0))));
    match puzzle.select_at(Dot::new(30_000, 21_000)) {
        SelectedObject::Line(l) => assert!(l == LineIndex(DotIndex(0), DotIndex(5))),
        other => panic!("expected an edge, got {:?}", other),
    }
    assert!(matches!(puzzle.select_at(Dot::new(31_000, 29_000)), SelectedObject::Pane(PaneIndex(0))));
    assert!(matches!(puzzle.select_at(Dot::new(5_000, 5_000)), SelectedObject::Nothing));
}

#[test]
fn toggling_constraints() {
    let mut puzzle = Puzzle::default();
    puzzle.toggle_dot_complexity(DotIndex(2), DotComplexity::BlackHexagon);
    assert!(puzzle.dot_complexity.is_empty());
    puzzle.toggle_dot_complexity(DotIndex(7), DotComplexity::BlackHexagon);
    assert_eq!(puzzle.dot_complexity, vec![(DotIndex(7), DotComplexity::BlackHexagon)]);

    // The key names the edge in either order.
    puzzle.toggle_line_complexity(LineIndex(DotIndex(13), DotIndex(8)), LineComplexity::BlackHexagon);
    assert_eq!(puzzle.line_complexity.len(), 1);
    assert_eq!(puzzle.line_complexity[0].1, LineComplexity::BlackHexagon);
    puzzle.toggle_line_complexity(LineIndex(DotIndex(0), DotIndex(1)), LineComplexity::LineBreak);
    assert_eq!(puzzle.line_complexity.len(), 2);

    puzzle.toggle_pane_complexity(PaneIndex(3), PaneComplexity::Square(ComplexityColor::White));
    assert_eq!(puzzle.pane_complexity, vec![(PaneIndex(4), PaneComplexity::Square(ComplexityColor::White))]);
    puzzle.toggle_pane_complexity(PaneIndex(9), PaneComplexity::Square(ComplexityColor::Black));
    assert_eq!(puzzle.pane_complexity.len(), 2);
    assert!(puzzle.is_well_formed());
}
