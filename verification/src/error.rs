//! The one kind of failure the engine knows: a length that does not fit.
use vstd::prelude::*;

verus! {

/// A vector or a matrix row whose length disagrees with the size a layer
/// declares. Every variant carries the length that was expected and the one
/// that was found; none is ever repaired by truncating or padding.
#[derive(Clone, Copy, Debug, PartialEq, Eq, Structural)]
pub enum ShapeError {
    /// A layer was given a bias vector that has not one entry per weight row.
    Biases { expected: usize, actual: usize },
    /// Row `row` of a weight matrix is not as long as its first row.
    Row { row: usize, expected: usize, actual: usize },
    /// Layer `layer` was fed an input that is not `input_size` long. A layer
    /// called on its own counts as layer 0.
    Input { layer: usize, expected: usize, actual: usize },
    /// Layer `layer` was given an error signal or a target that is not
    /// `output_size` long.
    Signal { layer: usize, expected: usize, actual: usize },
    /// Layer `layer` does not take as many inputs as the layer before it
    /// gives outputs.
    Link { layer: usize, expected: usize, actual: usize },
    /// A network was asked for without a single layer.
    Empty,
    /// Two vectors that are compared entry by entry differ in length.
    Lengths { expected: usize, actual: usize },
}

} // verus!
