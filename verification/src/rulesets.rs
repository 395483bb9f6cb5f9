//! Table-level rule configuration supplied at round construction.

use vstd::prelude::*;

verus! {

/// How ties between two five-card tricks of the same type are broken.
/// The baseline comparator compares ranks first and breaks rank ties by
/// suit; `Suit` names the recognised alternative of giving the suit
/// precedence for flush-type ties. It is a configuration point only: the
/// comparator of this crate implements the `Rank` baseline.
#[derive(Debug, Copy, Clone, PartialEq, Eq, Structural)]
pub enum FlushPrecedence {
    Suit,
    Rank,
}

/// The rule switches of a table: whether completing a four-of-a-kind
/// trick reverses the strength orderings, and how flush ties break.
#[derive(Debug, Copy, Clone)]
pub struct Ruleset {
    pub reversals_enabled: bool,
    pub flush_precedence: FlushPrecedence,
}

} // verus!
