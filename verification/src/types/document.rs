//! The plain parts of the document model: orientation, lists, colours and
//! alignment. The parts that carry measurements live beside the service.
use vstd::prelude::*;

verus! {

/// Page orientation.
#[derive(Debug, Clone, Default)]
pub enum Orientation {
    #[default]
    Portrait,
    Landscape,
}

/// How a list marks its items.
#[derive(Debug, Clone)]
pub enum ListType {
    Unordered(String),
    Ordered(NumberingStyle),
}

/// The numbering of an ordered list.
#[derive(Debug, Clone)]
pub enum NumberingStyle {
    Decimal,
    LowerRoman,
    UpperRoman,
    LowerAlpha,
}

/// Where an image stands.
#[derive(Debug, Clone)]
pub struct ImageLayout {
    pub alignment: Alignment,
    pub is_inline: bool,
}

/// A colour, as components or as a hex string.
#[derive(Debug, Clone)]
pub enum Color {
    Rgb(u8, u8, u8),
    Hex(String),
}

/// Horizontal alignment.
#[derive(Debug, Clone, Default, PartialEq, Eq, Structural)]
pub enum Alignment {
    #[default]
    Left,
    Center,
    Right,
    Justify,
}

} // verus!
