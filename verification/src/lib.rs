//! Terms of the sequoia sequence: for each `n`, the lowest starting height
//! `x >= 1` whose `n` branch heights `x, x + n, ..., x + (n - 1)n` avoid every
//! height used by the earlier terms.

pub mod bitmap;
pub mod search;
pub mod sequence;
pub mod term_line;
pub mod loader;
