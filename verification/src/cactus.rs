//! A cycle-aware reference-counting heap.
//!
//! Cells live in an arena and are named by integer ids. A cell is kept alive
//! by its handles and by the adoption edges that point at it; when the last
//! handle of a cell goes away, a trial deletion confined to the cells that
//! the cell can reach decides what has become unreachable and finalizes it.

pub mod collect;
pub mod graph;
pub mod heap;
pub mod lemmas;
pub mod release;
pub mod rooted;
pub mod laws;
pub mod transitions;
