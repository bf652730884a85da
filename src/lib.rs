//! Tape simplification for implicit surfaces: choice trails, SSA tapes,
//! register allocation, and the simplifier that prunes `min` / `max`
//! branches that an interval evaluation proved redundant.

pub mod choice;
pub mod eval;
pub mod lower;
pub mod regalloc;
pub mod simplify;
pub mod tape;
