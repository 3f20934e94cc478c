//! The unified in-memory representation of an annotated image set.
//!
//! Both input schemas are decoded into `UnifiedImage` records. Box corners are
//! absolute pixel coordinates in micro units (see `num`), kept exactly as the
//! source gave them: inverted or out-of-bounds boxes pass through untouched.

use vstd::prelude::*;

verus! {

/// Largest magnitude a unified box coordinate may have, in micro units.
/// A corner produced by adding two parsed numbers stays within this bound.
pub const MAX_BBOX_MICRO: i64 = 18_000_000_000_000_000;

/// A box in corner form: top-left and bottom-right, micro-pixel units.
#[derive(Clone, Copy, Debug, PartialEq, Eq, Structural)]
pub struct BBox {
    pub x1: i64,
    pub y1: i64,
    pub x2: i64,
    pub y2: i64,
}

impl BBox {
    /// All four coordinates are small enough for downstream arithmetic.
    pub open spec fn wf(self) -> bool {
        &&& -MAX_BBOX_MICRO <= self.x1 <= MAX_BBOX_MICRO
        &&& -MAX_BBOX_MICRO <= self.y1 <= MAX_BBOX_MICRO
        &&& -MAX_BBOX_MICRO <= self.x2 <= MAX_BBOX_MICRO
        &&& -MAX_BBOX_MICRO <= self.y2 <= MAX_BBOX_MICRO
    }
}

/// One annotation in the unified representation.
#[derive(Clone, Copy, Debug, PartialEq, Eq, Structural)]
pub struct UnifiedAnnotation {
    pub bbox: BBox,
    pub category_id: u32,
}

impl UnifiedAnnotation {
    pub open spec fn wf(self) -> bool {
        self.bbox.wf()
    }
}

/// One image together with its annotations, as decoded from an input file.
#[derive(Debug)]
pub struct UnifiedImage {
    pub file_name: String,
    pub width: u32,
    pub height: u32,
    pub annotations: Vec<UnifiedAnnotation>,
}

/// The mathematical value of a `UnifiedImage`.
#[verifier::ext_equal]
pub struct ImageView {
    pub file_name: Seq<char>,
    pub width: u32,
    pub height: u32,
    pub annotations: Seq<UnifiedAnnotation>,
}

impl View for UnifiedImage {
    type V = ImageView;

    open spec fn view(&self) -> ImageView {
        ImageView {
            file_name: self.file_name@,
            width: self.width,
            height: self.height,
            annotations: self.annotations@,
        }
    }
}

impl ImageView {
    /// Dimensions are positive and every annotation is bounded.
    pub open spec fn wf(self) -> bool {
        &&& self.width >= 1
        &&& self.height >= 1
        &&& forall|i: int| 0 <= i < self.annotations.len() ==> (#[trigger] self.annotations[i]).wf()
    }
}

/// A box re-expressed in normalized center form, held exactly as rationals:
/// the center is `x_center_num / denom_x` and the extent is
/// `width_num / denom_x` in micro fractions of the image width, where
/// `denom_x` is twice the image width in pixels (and likewise for y).
/// Rendering rounds each fraction to six decimals; the value itself loses
/// nothing, so converting back reproduces the corners exactly.
#[derive(Clone, Copy, Debug, PartialEq, Eq, Structural)]
pub struct YoloAnnotation {
    pub class_id: u32,
    pub x_center_num: i64,
    pub y_center_num: i64,
    pub width_num: i64,
    pub height_num: i64,
    pub denom_x: i64,
    pub denom_y: i64,
}

impl YoloAnnotation {
    /// Numerators and denominators are within the range that rendering
    /// arithmetic needs.
    pub open spec fn wf(self) -> bool {
        &&& -2 * MAX_BBOX_MICRO <= self.x_center_num <= 2 * MAX_BBOX_MICRO
        &&& -2 * MAX_BBOX_MICRO <= self.y_center_num <= 2 * MAX_BBOX_MICRO
        &&& -4 * MAX_BBOX_MICRO <= self.width_num <= 4 * MAX_BBOX_MICRO
        &&& -4 * MAX_BBOX_MICRO <= self.height_num <= 4 * MAX_BBOX_MICRO
        &&& 2 <= self.denom_x <= 9_000_000_000i64
        &&& 2 <= self.denom_y <= 9_000_000_000i64
    }
}

/// Why an input document was rejected.
#[derive(Clone, Copy, Debug, PartialEq, Eq, Structural)]
pub enum ParseError {
    /// The text is not well-formed structured data.
    Syntax,
    /// Values are nested too deeply.
    Depth,
    /// A number's magnitude exceeds what a coordinate may hold.
    NumberTooLarge,
    /// A required field is absent.
    MissingField,
    /// A field is present with the wrong shape or range.
    WrongType,
    /// A box does not hold the expected count of scalars.
    BadBoxArity,
    /// An image declares a zero width or height.
    BadDimension,
}

/// Why a whole conversion run was aborted.
#[derive(Clone, Copy, Debug, PartialEq, Eq, Structural)]
pub enum ConvertError {
    /// An input document was rejected; the index says which of the supplied
    /// texts, in order, was the first to fail.
    Parse(ParseError, usize),
    /// No input documents were supplied.
    NoInputFiles,
    /// A declared image name has an empty base name.
    InvalidFileName,
}

} // verus!
