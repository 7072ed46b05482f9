//! Twin-maze escape solver.
//!
//! Two independently laid-out grids each hold one robot and zero or more
//! deterministically patrolling guards.  One shared sequence of compass
//! directions must drive both robots out of their grids simultaneously:
//! every tick applies the same direction to both.  The library models the
//! per-grid transition rule (robot motion, wall bumps, guard patrols,
//! catch detection, exit detection) and searches the product state space
//! breadth-first for a shortest escape sequence, bounded by a fixed
//! horizon of ticks.

use vstd::prelude::*;

pub mod maze;
pub mod memo;
pub mod output;
pub mod pyramid;
pub mod singlemaze;

verus! {

/// Maximum number of ticks the search attempts before declaring the
/// puzzle unsolvable.
pub const HORIZON: usize = 1000;

} // verus!
