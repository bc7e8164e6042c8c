use vstd::prelude::*;

verus! {

/// The ways in which learning from a sample or solving a grid can fail.
#[derive(PartialEq, Eq, Structural, Debug, Clone, Copy)]
pub enum MatrixError {
    /// The sample's rows are not all of one length.
    ParseError,
    /// The program was started without the arguments it needs.
    ArgsError,
    /// A cell was left with no candidate tile: no tiling fits the rules.
    Contradiction,
    /// A tile was to be removed from a cell that does not hold it.
    MissingTile,
}

impl MatrixError {
    /// A short description of the error.
    pub fn message(&self) -> (r: String) {
        match self {
            MatrixError::ParseError => "example matrix error".to_string(),
            MatrixError::ArgsError => "args error".to_string(),
            MatrixError::Contradiction => "no valid tiling exists from this sample".to_string(),
            MatrixError::MissingTile => "tile not found in cell".to_string(),
        }
    }
}

} // verus!
