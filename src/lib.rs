//! Solving square picture-logic puzzles by compiling each line's run clues
//! into CNF clauses and handing them to a SAT solver.
pub mod grid;
pub mod line;
pub mod parse;
pub mod solver;
