//! The area record: one contiguous region of the flash image.

use vstd::prelude::*;

verus! {

/// The byte written over the whole span of an area before any file content.
pub const FILL_BYTE: u8 = 0xff;

/// A declared region of the output image.
#[derive(Debug, Clone)]
pub struct Area {
    /// Human-readable label.
    pub description: String,
    /// Identity tag; carried along, never used to place the area.
    pub compatible: String,
    /// Absolute byte offset in the image; `None` places the area directly
    /// behind the one processed before it.
    pub offset: Option<u32>,
    /// Length of the region in bytes.
    pub size: u32,
    /// File whose bytes are embedded at the start of the region.
    pub file: Option<String>,
}

/// What an area holds, as mathematical values.
pub struct AreaView {
    pub description: Seq<char>,
    pub compatible: Seq<char>,
    pub offset: Option<u32>,
    pub size: u32,
    pub file: Option<Seq<char>>,
}

impl View for Area {
    type V = AreaView;

    open spec fn view(&self) -> AreaView {
        AreaView {
            description: self.description@,
            compatible: self.compatible@,
            offset: self.offset,
            size: self.size,
            file: match self.file {
                Some(f) => Some(f@),
                None => None,
            },
        }
    }
}

/// The area that no property has touched yet.
pub open spec fn blank_area() -> AreaView {
    AreaView {
        description: Seq::empty(),
        compatible: Seq::empty(),
        offset: None,
        size: 0,
        file: None,
    }
}

impl Area {
    /// An area with empty texts, no offset, size zero and no file.
    pub fn new() -> (area: Area)
        ensures
            area@ == blank_area(),
    {
        Area {
            description: String::new(),
            compatible: String::new(),
            offset: None,
            size: 0,
            file: None,
        }
    }
}

impl Default for Area {
    fn default() -> (area: Area)
        ensures
            area@ == blank_area(),
    {
        Area::new()
    }
}

} // verus!
