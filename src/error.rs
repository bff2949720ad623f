use vstd::prelude::*;

verus! {

/// Parameters that no pattern can be drawn with, found before any cell is painted.
#[derive(Debug, Clone, Copy, PartialEq, Eq, Structural)]
pub enum ConfigurationError {
    /// Stripes and checkers need tiles at least one cell wide.
    ZeroTileSize,
    /// The outlined circle is traced on square buffers only.
    NotSquare,
}

} // verus!
