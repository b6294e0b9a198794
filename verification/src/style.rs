//! The catalog of border and arrow styles: which character stands for which
//! part of a box or of an arrow.

use vstd::prelude::*;

verus! {

/// The parts a box border is made of.
#[derive(Debug, PartialEq, Eq, Structural, Clone, Copy)]
pub enum BorderPart {
    Horizontal,
    Vertical,
    LeftTopCorner,
    RightTopCorner,
    LeftBottomCorner,
    RightBottomCorner,
}

/// The style of a box border.
#[derive(Debug, PartialEq, Eq, Structural, Clone, Copy)]
pub enum BorderType {
    Box,
}

/// The direction in which a straight piece of an arrow travels.
#[derive(Debug, PartialEq, Eq, Structural, Clone, Copy)]
pub enum ArrowDirection {
    HorizontalLeft,
    HorizontalRight,
    VerticalUp,
    VerticalDown,
}

/// The style of an arrow's shaft.
#[derive(Debug, PartialEq, Eq, Structural, Clone, Copy, Hash)]
pub enum ArrowBody {
    Basic,
}

/// The style of an arrow's head.
#[derive(Debug, PartialEq, Eq, Structural, Clone, Copy, Hash)]
pub enum ArrowHead {
    Basic,
}

impl BorderType {
    /// The character of a border part: `-` and `|` for the edges, `+` for
    /// each of the four corners.
    pub open spec fn glyph(self, part: BorderPart) -> char {
        match part {
            BorderPart::Horizontal => '-',
            BorderPart::Vertical => '|',
            _ => '+',
        }
    }

    pub fn get_matching_char(&self, part: &BorderPart) -> (c: char)
        ensures
            c == self.glyph(*part),
    {
        match (self, part) {
            (BorderType::Box, BorderPart::Horizontal) => '-',
            (BorderType::Box, BorderPart::Vertical) => '|',
            (BorderType::Box, BorderPart::LeftTopCorner) => '+',
            (BorderType::Box, BorderPart::RightTopCorner) => '+',
            (BorderType::Box, BorderPart::LeftBottomCorner) => '+',
            (BorderType::Box, BorderPart::RightBottomCorner) => '+',
        }
    }
}

impl ArrowBody {
    /// The shaft character: `-` along a row, `|` along a column.
    pub open spec fn glyph(self, direction: ArrowDirection) -> char {
        match direction {
            ArrowDirection::HorizontalLeft | ArrowDirection::HorizontalRight => '-',
            ArrowDirection::VerticalUp | ArrowDirection::VerticalDown => '|',
        }
    }

    pub fn get_matching_character(&self, direction: &ArrowDirection) -> (c: char)
        ensures
            c == self.glyph(*direction),
    {
        match (self, direction) {
            (ArrowBody::Basic, ArrowDirection::HorizontalLeft)
            | (ArrowBody::Basic, ArrowDirection::HorizontalRight) => '-',
            (ArrowBody::Basic, ArrowDirection::VerticalUp)
            | (ArrowBody::Basic, ArrowDirection::VerticalDown) => '|',
        }
    }
}

impl ArrowHead {
    /// The head character: `<`, `>`, `^` or `v`, by the direction travelled.
    pub open spec fn glyph(self, direction: ArrowDirection) -> char {
        match direction {
            ArrowDirection::HorizontalLeft => '<',
            ArrowDirection::HorizontalRight => '>',
            ArrowDirection::VerticalUp => '^',
            ArrowDirection::VerticalDown => 'v',
        }
    }

    pub fn get_matching_character(&self, direction: &ArrowDirection) -> (c: char)
        ensures
            c == self.glyph(*direction),
    {
        match (self, direction) {
            (ArrowHead::Basic, ArrowDirection::HorizontalLeft) => '<',
            (ArrowHead::Basic, ArrowDirection::HorizontalRight) => '>',
            (ArrowHead::Basic, ArrowDirection::VerticalUp) => '^',
            (ArrowHead::Basic, ArrowDirection::VerticalDown) => 'v',
        }
    }
}

} // verus!
