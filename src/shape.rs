use vstd::prelude::*;

verus! {

/// Largest value the wire protocol accepts for any size, offset or dimension.
pub const PROTOCOL_MAX: u32 = 0x7fff_ffff;

/// `x` rounded up to the next multiple of four.
pub open spec fn align4(x: int) -> int {
    if x % 4 == 0 {
        x
    } else {
        x + 4 - x % 4
    }
}

/// Rounds `x` up to the next multiple of four.
pub fn align_up4(x: u64) -> (r: u64)
    requires
        x + 3 <= u64::MAX,
    ensures
        r == align4(x as int),
{
    if x % 4 == 0 {
        x
    } else {
        x + 4 - x % 4
    }
}

/// Rounding up to four never passes a multiple of four above the value.
pub proof fn lemma_align4(x: int, y: int)
    requires
        0 <= x <= y,
        y % 4 == 0,
    ensures
        x <= align4(x) <= y,
        align4(x) < x + 4,
        align4(x) % 4 == 0,
{
}

/// Rounding up to four lands on a multiple of four less than four above the value.
pub proof fn lemma_align4_up(x: int)
    requires
        0 <= x,
    ensures
        x <= align4(x) < x + 4,
        align4(x) % 4 == 0,
{
}

/// Geometry and pixel format a remote buffer handle is bound to.
#[derive(Clone, Copy, Debug, PartialEq, Eq, Structural)]
pub struct BufferShape {
    pub width: u32,
    pub height: u32,
    /// Bytes per row.
    pub stride: u32,
    /// Wire code of the pixel format.
    pub format: u32,
}

impl BufferShape {
    /// Bytes the shape covers.
    pub open spec fn size(self) -> int {
        self.stride * self.height
    }

    /// Bytes the shape covers.
    pub fn byte_len(&self) -> (r: u64)
        requires
            self.size() <= PROTOCOL_MAX,
        ensures
            r == self.size(),
    {
        proof {
            assert(self.stride * self.height <= u64::MAX) by (nonlinear_arith)
                requires self.stride * self.height <= PROTOCOL_MAX;
        }
        (self.stride as u64) * (self.height as u64)
    }
}

/// Every dimension fits the protocol's signed 32-bit range, the stride
/// `width * bytes_per_pixel` and the size `stride * height` fit it too, and the
/// width does not exceed the stride.
pub open spec fn shape_ok(width: u32, height: u32, bytes_per_pixel: u32) -> bool {
    &&& width <= PROTOCOL_MAX
    &&& height <= PROTOCOL_MAX
    &&& bytes_per_pixel <= PROTOCOL_MAX
    &&& width * bytes_per_pixel <= PROTOCOL_MAX
    &&& width <= width * bytes_per_pixel
    &&& width * bytes_per_pixel * height <= PROTOCOL_MAX
}

/// The shape a valid request describes.
pub open spec fn shape_of(width: u32, height: u32, bytes_per_pixel: u32, format: u32) -> BufferShape {
    BufferShape { width, height, stride: (width * bytes_per_pixel) as u32, format }
}

/// Checks a requested geometry with overflow-checked arithmetic and returns the
/// shape it describes, or `None` when it is out of range.
pub fn check_shape(width: u32, height: u32, bytes_per_pixel: u32, format: u32) -> (r: Option<BufferShape>)
    ensures
        r is Some <==> shape_ok(width, height, bytes_per_pixel),
        r is Some ==> r == Some(shape_of(width, height, bytes_per_pixel, format)),
        r is Some ==> r.unwrap().size() <= PROTOCOL_MAX,
{
    if width > PROTOCOL_MAX || height > PROTOCOL_MAX || bytes_per_pixel > PROTOCOL_MAX {
        return None;
    }
    let stride = match width.checked_mul(bytes_per_pixel) {
        Some(stride) => stride,
        None => {
            return None;
        },
    };
    if stride > PROTOCOL_MAX || width > stride {
        return None;
    }
    match stride.checked_mul(height) {
        Some(size) => {
            if size > PROTOCOL_MAX {
                None
            } else {
                Some(BufferShape { width, height, stride, format })
            }
        },
        None => None,
    }
}

/// A shape given in the protocol's signed form is in range: no negative
/// value, the width within the stride, and `stride * height` within the
/// signed 32-bit range.
pub open spec fn stride_shape_ok(width: i32, stride: i32, height: i32) -> bool {
    &&& 0 <= width <= stride
    &&& 0 <= height
    &&& stride * height <= PROTOCOL_MAX
}

/// The shape that width, stride, height and format describe.
pub open spec fn stride_shape_of(width: i32, stride: i32, height: i32, format: u32) -> BufferShape {
    BufferShape { width: width as u32, height: height as u32, stride: stride as u32, format }
}

/// Checks a shape given in the protocol's signed form, with overflow-checked
/// arithmetic, and returns it, or `None` when it is out of range.
pub fn check_stride_shape(width: i32, stride: i32, height: i32, format: u32) -> (r: Option<BufferShape>)
    ensures
        r is Some <==> stride_shape_ok(width, stride, height),
        r is Some ==> r == Some(stride_shape_of(width, stride, height, format)),
        r is Some ==> r.unwrap().size() <= PROTOCOL_MAX,
{
    if width < 0 || height < 0 || width > stride {
        return None;
    }
    match stride.checked_mul(height) {
        Some(size) => Some(
            BufferShape { width: width as u32, height: height as u32, stride: stride as u32, format },
        ),
        None => None,
    }
}

} // verus!
