//! A line-tracing puzzle on a grid of nodes and edges: the puzzle graph and
//! its constraints (`puzzle`), the interactive path tracer that turns pointer
//! motion into a walk through the graph (`tracer`), the validator that judges
//! a finished walk, with its region analysis (`checker`), the fixed-point
//! geometry they share (`geometry`), and the constraint editing operations
//! (`editor`).

pub mod checker;
pub mod editor;
pub mod geometry;
pub mod puzzle;
pub mod tracer;

pub use checker::{check_path, find_components, SolutionError};
pub use editor::SelectedObject;
pub use geometry::{Dot, UNIT};
pub use puzzle::{ComplexityColor, DotComplexity, LineComplexity, PaneComplexity};
pub use puzzle::{DotIndex, LineIndex, PaneIndex, Puzzle};
pub use tracer::{check_solution, PuzzleSolutionManager};
