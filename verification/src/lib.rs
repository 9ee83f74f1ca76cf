//! Formal Concept Analysis: formal contexts, concept enumeration
//! (Next Closure, FCbO), upper neighbours, attribute exploration and the
//! DimDraw lattice layout search, verified with Verus.

pub mod bitset;
pub mod context;
pub mod lectic;
pub mod next_closure;
pub mod fcbo;
pub mod upper_neighbor;
pub mod order;
mod sort;
pub mod dimdraw;
pub mod state_key;
pub mod completion;
pub mod search;
pub mod exploration;
