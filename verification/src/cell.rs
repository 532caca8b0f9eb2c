use vstd::prelude::*;

verus! {

/// One grid cell: the tag stored at a single board position.
///
/// `Tail` carries the index of the neighbouring body segment one step
/// closer to the head, so the snake's body is a singly-linked chain
/// embedded directly in the grid.
#[derive(Clone, Copy, PartialEq, Eq, Structural, Debug)]
pub enum Field {
    Empty,
    Border,
    Head,
    Tail(usize),
    Food,
}

/// The per-cell category handed to a renderer: the `Tail` payload is
/// collapsed away.
#[derive(Clone, Copy, PartialEq, Eq, Structural, Debug)]
pub enum DisplayState {
    Empty,
    Border,
    Head,
    Tail,
    Food,
}

/// A directional input; anything that is not one of the four directions
/// is `Other` and leaves the world untouched.
#[derive(Clone, Copy, PartialEq, Eq, Structural, Debug)]
pub enum Key {
    Up,
    Down,
    Left,
    Right,
    Other,
}

impl Field {
    /// The display category of this cell.
    pub open spec fn spec_display(self) -> DisplayState {
        match self {
            Field::Empty => DisplayState::Empty,
            Field::Border => DisplayState::Border,
            Field::Head => DisplayState::Head,
            Field::Tail(_) => DisplayState::Tail,
            Field::Food => DisplayState::Food,
        }
    }

    /// Collapse this cell to its display category.
    pub fn display(self) -> (d: DisplayState)
        ensures
            d == self.spec_display(),
    {
        match self {
            Field::Empty => DisplayState::Empty,
            Field::Border => DisplayState::Border,
            Field::Head => DisplayState::Head,
            Field::Tail(_) => DisplayState::Tail,
            Field::Food => DisplayState::Food,
        }
    }
}

} // verus!
