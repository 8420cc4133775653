//! A 9x9 constraint-satisfaction puzzle solver: a board of 81 squares, each
//! tracking a settled value and a set of still-possible values; singleton
//! elimination that settles every cell whose candidates collapse to one value;
//! recursive backtracking search; and a thread-budget allocator that decides,
//! at each branch point, how many hypotheses run as freshly spawned workers.

pub mod board;
pub mod propagate;
pub mod search;
pub mod units;
