//! Integer geometry: axes, points, vectors, sizes, rectangles and four-sided
//! spacing.
//!
//! Every coordinate and extent is an `i64` counted in device units. Arithmetic
//! is carried out in the integers and the result is clamped into the `i64`
//! range when it is stored, so no operation here can overflow or panic. An
//! extent equal to [`UNBOUNDED`] stands for "no limit"; the operations on
//! [`Size`] keep it as it is.

use core::ops::{Add, Mul, Sub};
use vstd::prelude::*;
use vstd::std_specs::convert::FromSpecImpl;
use vstd::std_specs::ops::{AddSpecImpl, MulSpecImpl, SubSpecImpl};

verus! {

/// The extent that stands for "no limit" in an available size.
pub const UNBOUNDED: i64 = 0x7fff_ffff_ffff_ffff;

/// `v` clamped into the range of `i64`.
pub open spec fn clamp(v: int) -> int {
    if v < -0x8000_0000_0000_0000 {
        -0x8000_0000_0000_0000
    } else if v > 0x7fff_ffff_ffff_ffff {
        0x7fff_ffff_ffff_ffff
    } else {
        v
    }
}

/// Sum of two extents: unbounded if either is, else the clamped sum.
pub open spec fn extent_add(a: int, b: int) -> int {
    if a == UNBOUNDED || b == UNBOUNDED {
        UNBOUNDED as int
    } else {
        clamp(a + b)
    }
}

/// Difference of two extents: unbounded if the first is, else the clamped
/// difference.
pub open spec fn extent_sub(a: int, b: int) -> int {
    if a == UNBOUNDED {
        UNBOUNDED as int
    } else {
        clamp(a - b)
    }
}

/// The larger of two integers.
pub open spec fn max_int(a: int, b: int) -> int {
    if a >= b {
        a
    } else {
        b
    }
}

/// The smaller of two integers.
pub open spec fn min_int(a: int, b: int) -> int {
    if a <= b {
        a
    } else {
        b
    }
}

/// `a` divided by the positive `b`, rounded towards zero.
pub open spec fn div_toward_zero(a: int, b: int) -> int {
    if a >= 0 {
        a / b
    } else {
        -((-a) / b)
    }
}

/// An extent multiplied by the scale factor `scale`, rounded towards zero:
/// unbounded if the extent is, else clamped.
pub open spec fn extent_scaled(extent: int, scale: int) -> int {
    if extent == UNBOUNDED {
        UNBOUNDED as int
    } else {
        clamp(div_toward_zero(extent * scale, 1024))
    }
}

/// Clamps a wide integer into an `i64`.
pub fn clamp_to_i64(v: i128) -> (r: i64)
    ensures
        r == clamp(v as int),
{
    if v < -0x8000_0000_0000_0000i128 {
        -0x8000_0000_0000_0000i64
    } else if v > 0x7fff_ffff_ffff_ffffi128 {
        0x7fff_ffff_ffff_ffffi64
    } else {
        v as i64
    }
}

/// Clamps an unsigned integer into an `i64`.
pub fn clamp_u64_to_i64(v: u64) -> (r: i64)
    ensures
        r == clamp(v as int),
{
    if v > 0x7fff_ffff_ffff_ffffu64 {
        0x7fff_ffff_ffff_ffffi64
    } else {
        v as i64
    }
}

/// Clamped sum of two coordinates.
pub fn clamped_add(a: i64, b: i64) -> (r: i64)
    ensures
        r == clamp(a + b),
{
    clamp_to_i64(a as i128 + b as i128)
}

/// Clamped difference of two coordinates.
pub fn clamped_sub(a: i64, b: i64) -> (r: i64)
    ensures
        r == clamp(a - b),
{
    clamp_to_i64(a as i128 - b as i128)
}

/// Sum of two extents, see [`extent_add`].
pub fn add_extents(a: i64, b: i64) -> (r: i64)
    ensures
        r == extent_add(a as int, b as int),
{
    if a == UNBOUNDED || b == UNBOUNDED {
        UNBOUNDED
    } else {
        clamped_add(a, b)
    }
}

/// Difference of two extents, see [`extent_sub`].
pub fn sub_extents(a: i64, b: i64) -> (r: i64)
    ensures
        r == extent_sub(a as int, b as int),
{
    if a == UNBOUNDED {
        UNBOUNDED
    } else {
        clamped_sub(a, b)
    }
}

/// Clamps a wide unsigned integer into a `u64`.
pub fn clamp_to_u64(v: u128) -> (r: u64)
    ensures
        r == min_int(v as int, 0xffff_ffff_ffff_ffff),
{
    if v > 0xffff_ffff_ffff_ffffu128 {
        0xffff_ffff_ffff_ffffu64
    } else {
        v as u64
    }
}

/// The scale factor that leaves lengths as they are. A scale factor counts
/// in units of one part in `SCALE_ONE`.
pub const SCALE_ONE: u32 = 1024;

/// `units` multiplied by the scale factor `scale`, rounded down.
pub open spec fn scale_units(units: int, scale: int) -> int {
    (units * scale) / 1024
}

/// Half of `twice` multiplied by the scale factor `scale`, rounded down.
pub open spec fn scale_half_units(twice: int, scale: int) -> int {
    (twice * scale) / 2048
}

/// Scaling keeps the order of non-negative amounts, and scaling twice an
/// amount by halves is scaling the amount.
pub proof fn lemma_scale_monotone(a: int, b: int, scale: int)
    requires
        0 <= a <= b,
        0 <= scale,
    ensures
        0 <= scale_units(a, scale) <= scale_units(b, scale),
        0 <= scale_half_units(a, scale) <= scale_half_units(b, scale),
        scale_half_units(2 * a, scale) == scale_units(a, scale),
{
    assert(0 <= a * scale <= b * scale) by (nonlinear_arith)
        requires
            0 <= a <= b,
            0 <= scale,
    ;
    assert((2 * a) * scale == 2 * (a * scale)) by (nonlinear_arith);
}

/// `units` multiplied by `scale`, clamped into `u64`.
pub fn scale_length(units: u128, scale: u32) -> (r: u64)
    requires
        units <= 0xffff_ffff_ffff_ffff_ffff,
    ensures
        r == min_int(scale_units(units as int, scale as int), 0xffff_ffff_ffff_ffff),
{
    assert(units * scale <= 0xffff_ffff_ffff_ffff_ffff * 0xffff_ffff) by (nonlinear_arith)
        requires
            0 <= units <= 0xffff_ffff_ffff_ffff_ffff,
            0 <= scale <= 0xffff_ffff,
    ;
    let product: u128 = units * (scale as u128);
    clamp_to_u64(product / 1024)
}

/// Half of `twice` multiplied by `scale`, clamped into `u64`.
pub fn scale_half_length(twice: u128, scale: u32) -> (r: u64)
    requires
        twice <= 0xffff_ffff_ffff_ffff_ffff,
    ensures
        r == min_int(scale_half_units(twice as int, scale as int), 0xffff_ffff_ffff_ffff),
{
    assert(twice * scale <= 0xffff_ffff_ffff_ffff_ffff * 0xffff_ffff) by (nonlinear_arith)
        requires
            0 <= twice <= 0xffff_ffff_ffff_ffff_ffff,
            0 <= scale <= 0xffff_ffff,
    ;
    let product: u128 = twice * (scale as u128);
    clamp_to_u64(product / 2048)
}

/// An extent multiplied by the scale factor `scale`, see [`extent_scaled`].
pub fn scale_extent(extent: i64, scale: u32) -> (r: i64)
    ensures
        r == extent_scaled(extent as int, scale as int),
{
    if extent == UNBOUNDED {
        UNBOUNDED
    } else {
        assert(-0x8000_0000_0000_0000 * 0xffff_ffff <= extent * scale <= 0x7fff_ffff_ffff_ffff
            * 0xffff_ffff) by (nonlinear_arith)
            requires
                -0x8000_0000_0000_0000 <= extent <= 0x7fff_ffff_ffff_ffff,
                0 <= scale <= 0xffff_ffff,
        ;
        let product: i128 = (extent as i128) * (scale as i128);
        clamp_to_i64(product / 1024)
    }
}

/// One of the two axes of the plane.
#[derive(Copy, Clone, PartialEq, Eq, Debug, Structural)]
pub enum Axis {
    Horizontal,
    Vertical,
}

impl Axis {
    /// The other axis.
    pub open spec fn spec_cross(&self) -> Axis {
        match self {
            Axis::Horizontal => Axis::Vertical,
            Axis::Vertical => Axis::Horizontal,
        }
    }

    /// The other axis.
    #[verifier::when_used_as_spec(spec_cross)]
    pub fn cross(&self) -> (r: Axis)
        ensures
            r == self.spec_cross(),
    {
        match self {
            Axis::Horizontal => Axis::Vertical,
            Axis::Vertical => Axis::Horizontal,
        }
    }
}

impl Default for Axis {
    fn default() -> (r: Axis)
        ensures
            r == Axis::Vertical,
    {
        Axis::Vertical
    }
}

/// The coordinate whose every byte is zero.
///
/// Calls `bytemuck::Zeroable::zeroed` for `i64`, which returns the value of
/// the type that consists of zero bytes only; the contract claims that this
/// is the number zero.
#[verifier::external_body]
pub(crate) fn zeroed_coordinate() -> (r: i64)
    ensures
        r == 0,
{
    let zero: i64 = bytemuck::Zeroable::zeroed();
    zero
}

/// A position in the plane.
#[derive(Copy, Clone, PartialEq, Eq, Debug, Structural)]
pub struct Point {
    pub x: i64,
    pub y: i64,
}

impl Point {
    pub fn new(x: i64, y: i64) -> (r: Point)
        ensures
            r == (Point { x, y }),
    {
        Point { x, y }
    }

    /// The origin.
    pub fn zeroed() -> (r: Point)
        ensures
            r == (Point { x: 0, y: 0 }),
    {
        Point { x: zeroed_coordinate(), y: zeroed_coordinate() }
    }

    /// The displacement that leads from `origin` to `self`.
    pub open spec fn spec_minus(self, origin: Point) -> Vector {
        Vector { x: clamp(self.x - origin.x) as i64, y: clamp(self.y - origin.y) as i64 }
    }

    /// The displacement that leads from `origin` to `self`.
    pub fn minus(self, origin: Point) -> (r: Vector)
        ensures
            r == self.spec_minus(origin),
    {
        Vector { x: clamped_sub(self.x, origin.x), y: clamped_sub(self.y, origin.y) }
    }

    /// `self` moved by `by`.
    pub open spec fn spec_offset(self, by: Vector) -> Point {
        Point { x: clamp(self.x + by.x) as i64, y: clamp(self.y + by.y) as i64 }
    }

    /// `self` moved by `by`.
    pub fn offset(self, by: Vector) -> (r: Point)
        ensures
            r == self.spec_offset(by),
    {
        Point { x: clamped_add(self.x, by.x), y: clamped_add(self.y, by.y) }
    }
}

/// A displacement in the plane.
#[derive(Copy, Clone, PartialEq, Eq, Debug, Structural)]
pub struct Vector {
    pub x: i64,
    pub y: i64,
}

impl Vector {
    pub fn new(x: i64, y: i64) -> (r: Vector)
        ensures
            r == (Vector { x, y }),
    {
        Vector { x, y }
    }

    /// Componentwise clamped sum.
    pub open spec fn spec_plus(self, rhs: Vector) -> Vector {
        Vector { x: clamp(self.x + rhs.x) as i64, y: clamp(self.y + rhs.y) as i64 }
    }

    /// Componentwise clamped sum.
    pub fn plus(self, rhs: Vector) -> (r: Vector)
        ensures
            r == self.spec_plus(rhs),
    {
        Vector { x: clamped_add(self.x, rhs.x), y: clamped_add(self.y, rhs.y) }
    }

    /// Componentwise clamped difference.
    pub open spec fn spec_minus(self, rhs: Vector) -> Vector {
        Vector { x: clamp(self.x - rhs.x) as i64, y: clamp(self.y - rhs.y) as i64 }
    }

    /// Componentwise clamped difference.
    pub fn minus(self, rhs: Vector) -> (r: Vector)
        ensures
            r == self.spec_minus(rhs),
    {
        Vector { x: clamped_sub(self.x, rhs.x), y: clamped_sub(self.y, rhs.y) }
    }
}

/// A pair of extents, one per axis. Either may be [`UNBOUNDED`].
#[derive(Copy, Clone, PartialEq, Eq, Debug, Structural)]
pub struct Size {
    pub vertical: i64,
    pub horizontal: i64,
}

impl Size {
    pub fn new(horizontal: i64, vertical: i64) -> (r: Size)
        ensures
            r == (Size { vertical, horizontal }),
    {
        Size { vertical, horizontal }
    }

    /// The size whose extent along `main_axis` is `main_size` and whose other
    /// extent is `cross_size`.
    pub open spec fn spec_from_axes(main_axis: Axis, main_size: i64, cross_size: i64) -> Size {
        match main_axis {
            Axis::Horizontal => Size { horizontal: main_size, vertical: cross_size },
            Axis::Vertical => Size { horizontal: cross_size, vertical: main_size },
        }
    }

    /// The size whose extent along `main_axis` is `main_size` and whose other
    /// extent is `cross_size`.
    pub fn from_axes(main_axis: Axis, main_size: i64, cross_size: i64) -> (r: Size)
        ensures
            r == Size::spec_from_axes(main_axis, main_size, cross_size),
    {
        match main_axis {
            Axis::Horizontal => Size::new(main_size, cross_size),
            Axis::Vertical => Size::new(cross_size, main_size),
        }
    }

    /// The space that a border of thickness `size` takes on each axis: twice
    /// the thickness.
    pub fn from_border(size: i64) -> (r: Size)
        ensures
            r.horizontal == clamp(2 * size),
            r.vertical == clamp(2 * size),
    {
        let twice = clamped_add(size, size);
        Size::new(twice, twice)
    }

    pub fn width(&self) -> (r: i64)
        ensures
            r == self.horizontal,
    {
        self.horizontal
    }

    pub fn height(&self) -> (r: i64)
        ensures
            r == self.vertical,
    {
        self.vertical
    }

    /// The extent along `axis`.
    pub open spec fn spec_axis(&self, axis: Axis) -> i64 {
        match axis {
            Axis::Vertical => self.vertical,
            Axis::Horizontal => self.horizontal,
        }
    }

    /// The extent along `axis`.
    #[verifier::when_used_as_spec(spec_axis)]
    pub fn axis(&self, axis: Axis) -> (r: i64)
        ensures
            r == self.spec_axis(axis),
    {
        match axis {
            Axis::Vertical => self.vertical,
            Axis::Horizontal => self.horizontal,
        }
    }

    pub fn as_vector(&self) -> (r: Vector)
        ensures
            r == (Vector { x: self.horizontal, y: self.vertical }),
    {
        Vector::new(self.horizontal, self.vertical)
    }

    /// Both extents raised to zero where they are negative.
    pub open spec fn spec_clamp_positive(&self) -> Size {
        Size {
            vertical: max_int(self.vertical as int, 0) as i64,
            horizontal: max_int(self.horizontal as int, 0) as i64,
        }
    }

    /// Both extents raised to zero where they are negative.
    pub fn clamp_positive(&self) -> (r: Size)
        ensures
            r == self.spec_clamp_positive(),
    {
        Size {
            vertical: if self.vertical < 0 { 0 } else { self.vertical },
            horizontal: if self.horizontal < 0 { 0 } else { self.horizontal },
        }
    }

    /// Whether either extent is [`UNBOUNDED`].
    pub open spec fn spec_is_unbounded(&self) -> bool {
        self.horizontal == UNBOUNDED || self.vertical == UNBOUNDED
    }

    /// Whether either extent is [`UNBOUNDED`].
    #[verifier::when_used_as_spec(spec_is_unbounded)]
    pub fn is_unbounded(&self) -> (r: bool)
        ensures
            r == self.spec_is_unbounded(),
    {
        self.horizontal == UNBOUNDED || self.vertical == UNBOUNDED
    }

    /// Each extent multiplied by the scale factor `scale`, see
    /// [`extent_scaled`].
    pub open spec fn spec_scaled(&self, scale: u32) -> Size {
        Size {
            vertical: extent_scaled(self.vertical as int, scale as int) as i64,
            horizontal: extent_scaled(self.horizontal as int, scale as int) as i64,
        }
    }

    /// Each extent multiplied by the scale factor `scale`, see
    /// [`extent_scaled`].
    #[verifier::when_used_as_spec(spec_scaled)]
    pub fn scaled(&self, scale: u32) -> (r: Size)
        ensures
            r == self.spec_scaled(scale),
    {
        Size { vertical: scale_extent(self.vertical, scale), horizontal: scale_extent(self.horizontal, scale) }
    }

    /// Extent-wise sum, see [`extent_add`].
    pub open spec fn spec_plus(self, rhs: Size) -> Size {
        Size {
            vertical: extent_add(self.vertical as int, rhs.vertical as int) as i64,
            horizontal: extent_add(self.horizontal as int, rhs.horizontal as int) as i64,
        }
    }

    /// Extent-wise sum, see [`extent_add`].
    pub fn plus(self, rhs: Size) -> (r: Size)
        ensures
            r == self.spec_plus(rhs),
    {
        Size {
            vertical: add_extents(self.vertical, rhs.vertical),
            horizontal: add_extents(self.horizontal, rhs.horizontal),
        }
    }

    /// Extent-wise difference, see [`extent_sub`].
    pub open spec fn spec_minus(self, rhs: Size) -> Size {
        Size {
            vertical: extent_sub(self.vertical as int, rhs.vertical as int) as i64,
            horizontal: extent_sub(self.horizontal as int, rhs.horizontal as int) as i64,
        }
    }

    /// Extent-wise difference, see [`extent_sub`].
    pub fn minus(self, rhs: Size) -> (r: Size)
        ensures
            r == self.spec_minus(rhs),
    {
        Size {
            vertical: sub_extents(self.vertical, rhs.vertical),
            horizontal: sub_extents(self.horizontal, rhs.horizontal),
        }
    }
}

/// Four distances, one per side of a rectangle. None is negative.
#[derive(Copy, Clone, PartialEq, Eq, Debug, Structural)]
pub struct SizeRect {
    pub left: u64,
    pub right: u64,
    pub top: u64,
    pub bottom: u64,
}

impl SizeRect {
    pub fn new(left: u64, right: u64, top: u64, bottom: u64) -> (r: SizeRect)
        ensures
            r == (SizeRect { left, right, top, bottom }),
    {
        SizeRect { left, right, top, bottom }
    }

    /// Spacing of `start` before and `end` after along `axis`, none across.
    pub open spec fn spec_from_axis(axis: Axis, start: u64, end: u64) -> SizeRect {
        match axis {
            Axis::Horizontal => SizeRect { left: start, right: end, top: 0, bottom: 0 },
            Axis::Vertical => SizeRect { left: 0, right: 0, top: start, bottom: end },
        }
    }

    /// Spacing of `start` before and `end` after along `axis`, none across.
    pub fn from_axis(axis: Axis, start: u64, end: u64) -> (r: SizeRect)
        ensures
            r == SizeRect::spec_from_axis(axis, start, end),
    {
        match axis {
            Axis::Horizontal => SizeRect::new(start, end, 0, 0),
            Axis::Vertical => SizeRect::new(0, 0, start, end),
        }
    }

    pub fn from_axes(horizontal: u64, vertical: u64) -> (r: SizeRect)
        ensures
            r == (SizeRect { left: horizontal, right: horizontal, top: vertical, bottom: vertical }),
    {
        SizeRect::new(horizontal, horizontal, vertical, vertical)
    }

    /// The same distance on all four sides.
    pub open spec fn spec_from_border(size: u64) -> SizeRect {
        SizeRect { left: size, right: size, top: size, bottom: size }
    }

    /// The same distance on all four sides.
    #[verifier::when_used_as_spec(spec_from_border)]
    pub fn from_border(size: u64) -> (r: SizeRect)
        ensures
            r == SizeRect::spec_from_border(size),
    {
        SizeRect::new(size, size, size, size)
    }

    /// The two distances along `axis` added up, clamped.
    pub open spec fn spec_sum_axis(&self, axis: Axis) -> i64 {
        match axis {
            Axis::Horizontal => clamp(self.left + self.right) as i64,
            Axis::Vertical => clamp(self.top + self.bottom) as i64,
        }
    }

    /// The two distances along `axis` added up, clamped.
    #[verifier::when_used_as_spec(spec_sum_axis)]
    pub fn sum_axis(&self, axis: Axis) -> (r: i64)
        ensures
            r == self.spec_sum_axis(axis),
    {
        match axis {
            Axis::Horizontal => clamp_to_i64(self.left as i128 + self.right as i128),
            Axis::Vertical => clamp_to_i64(self.top as i128 + self.bottom as i128),
        }
    }

    /// The space taken on each axis.
    pub open spec fn spec_sum_axes(&self) -> Size {
        Size {
            horizontal: self.spec_sum_axis(Axis::Horizontal),
            vertical: self.spec_sum_axis(Axis::Vertical),
        }
    }

    /// The space taken on each axis.
    #[verifier::when_used_as_spec(spec_sum_axes)]
    pub fn sum_axes(&self) -> (r: Size)
        ensures
            r == self.spec_sum_axes(),
    {
        Size {
            horizontal: self.sum_axis(Axis::Horizontal),
            vertical: self.sum_axis(Axis::Vertical),
        }
    }

    /// Each side multiplied by the scale factor `scale`.
    pub open spec fn spec_scaled(&self, scale: u32) -> SizeRect {
        SizeRect {
            left: min_int(scale_units(self.left as int, scale as int), 0xffff_ffff_ffff_ffff) as u64,
            right: min_int(scale_units(self.right as int, scale as int), 0xffff_ffff_ffff_ffff) as u64,
            top: min_int(scale_units(self.top as int, scale as int), 0xffff_ffff_ffff_ffff) as u64,
            bottom: min_int(scale_units(self.bottom as int, scale as int), 0xffff_ffff_ffff_ffff) as u64,
        }
    }

    /// Each side multiplied by the scale factor `scale`.
    #[verifier::when_used_as_spec(spec_scaled)]
    pub fn scaled(&self, scale: u32) -> (r: SizeRect)
        ensures
            r == self.spec_scaled(scale),
    {
        SizeRect {
            left: scale_length(self.left as u128, scale),
            right: scale_length(self.right as u128, scale),
            top: scale_length(self.top as u128, scale),
            bottom: scale_length(self.bottom as u128, scale),
        }
    }

    /// Whether each side of `self` is at most that side of `other`.
    pub open spec fn within(self, other: SizeRect) -> bool {
        &&& self.left <= other.left
        &&& self.right <= other.right
        &&& self.top <= other.top
        &&& self.bottom <= other.bottom
    }
}

impl SizeRect {
    /// Side-wise sum, each side clamped into `u64`.
    pub open spec fn spec_plus(self, rhs: SizeRect) -> SizeRect {
        SizeRect {
            left: min_int(self.left + rhs.left, 0xffff_ffff_ffff_ffff) as u64,
            right: min_int(self.right + rhs.right, 0xffff_ffff_ffff_ffff) as u64,
            top: min_int(self.top + rhs.top, 0xffff_ffff_ffff_ffff) as u64,
            bottom: min_int(self.bottom + rhs.bottom, 0xffff_ffff_ffff_ffff) as u64,
        }
    }

    /// Side-wise sum, each side clamped into `u64`.
    pub fn plus(self, rhs: SizeRect) -> (r: SizeRect)
        ensures
            r == self.spec_plus(rhs),
    {
        SizeRect {
            left: clamp_to_u64(self.left as u128 + rhs.left as u128),
            right: clamp_to_u64(self.right as u128 + rhs.right as u128),
            top: clamp_to_u64(self.top as u128 + rhs.top as u128),
            bottom: clamp_to_u64(self.bottom as u128 + rhs.bottom as u128),
        }
    }

    /// Side-wise difference, each side stopping at zero.
    pub open spec fn spec_minus(self, rhs: SizeRect) -> SizeRect {
        SizeRect {
            left: max_int(self.left - rhs.left, 0) as u64,
            right: max_int(self.right - rhs.right, 0) as u64,
            top: max_int(self.top - rhs.top, 0) as u64,
            bottom: max_int(self.bottom - rhs.bottom, 0) as u64,
        }
    }

    /// Side-wise difference, each side stopping at zero.
    pub fn minus(self, rhs: SizeRect) -> (r: SizeRect)
        ensures
            r == self.spec_minus(rhs),
    {
        SizeRect {
            left: if self.left >= rhs.left { self.left - rhs.left } else { 0 },
            right: if self.right >= rhs.right { self.right - rhs.right } else { 0 },
            top: if self.top >= rhs.top { self.top - rhs.top } else { 0 },
            bottom: if self.bottom >= rhs.bottom { self.bottom - rhs.bottom } else { 0 },
        }
    }
}

/// An axis-aligned rectangle: its top-left corner and its extents. It covers
/// the points `p` with `x <= p.x < x + w` and `y <= p.y < y + h`.
#[derive(Copy, Clone, PartialEq, Eq, Debug, Structural)]
pub struct Rect {
    pub x: i64,
    pub y: i64,
    pub w: i64,
    pub h: i64,
}

/// The least left edge among `rects`.
pub open spec fn min_left(rects: Seq<Rect>) -> int
    decreases rects.len(),
{
    if rects.len() == 0 {
        0
    } else if rects.len() == 1 {
        rects[0].x as int
    } else {
        min_int(min_left(rects.drop_last()), rects.last().x as int)
    }
}

/// The least top edge among `rects`.
pub open spec fn min_top(rects: Seq<Rect>) -> int
    decreases rects.len(),
{
    if rects.len() == 0 {
        0
    } else if rects.len() == 1 {
        rects[0].y as int
    } else {
        min_int(min_top(rects.drop_last()), rects.last().y as int)
    }
}

/// The greatest right edge among `rects`, each taken without clamping.
pub open spec fn max_right(rects: Seq<Rect>) -> int
    decreases rects.len(),
{
    if rects.len() == 0 {
        0
    } else if rects.len() == 1 {
        rects[0].x + rects[0].w
    } else {
        max_int(max_right(rects.drop_last()), rects.last().x + rects.last().w)
    }
}

/// The greatest bottom edge among `rects`, each taken without clamping.
pub open spec fn max_bottom(rects: Seq<Rect>) -> int
    decreases rects.len(),
{
    if rects.len() == 0 {
        0
    } else if rects.len() == 1 {
        rects[0].y + rects[0].h
    } else {
        max_int(max_bottom(rects.drop_last()), rects.last().y + rects.last().h)
    }
}

/// The smallest rectangle whose edges enclose the edges of every one of
/// `rects`, which must not be empty.
pub open spec fn hull(rects: Seq<Rect>) -> Rect {
    Rect {
        x: min_left(rects) as i64,
        y: min_top(rects) as i64,
        w: clamp(max_right(rects) - min_left(rects)) as i64,
        h: clamp(max_bottom(rects) - min_top(rects)) as i64,
    }
}

impl Rect {
    pub fn from_xywh(x: i64, y: i64, w: i64, h: i64) -> (r: Rect)
        ensures
            r == (Rect { x, y, w, h }),
    {
        Rect { x, y, w, h }
    }

    /// The empty rectangle at the origin.
    pub fn zeroed() -> (r: Rect)
        ensures
            r == (Rect { x: 0, y: 0, w: 0, h: 0 }),
    {
        Rect {
            x: zeroed_coordinate(),
            y: zeroed_coordinate(),
            w: zeroed_coordinate(),
            h: zeroed_coordinate(),
        }
    }

    /// The rectangle with the given edges.
    pub open spec fn spec_from_lrtb(left: i64, right: i64, top: i64, bottom: i64) -> Rect {
        Rect { x: left, y: top, w: clamp(right - left) as i64, h: clamp(bottom - top) as i64 }
    }

    /// The rectangle with the given edges.
    pub fn from_lrtb(left: i64, right: i64, top: i64, bottom: i64) -> (r: Rect)
        ensures
            r == Rect::spec_from_lrtb(left, right, top, bottom),
    {
        Rect::from_xywh(left, top, clamped_sub(right, left), clamped_sub(bottom, top))
    }

    pub fn from_topleft_size(topleft: Point, size: Size) -> (r: Rect)
        ensures
            r == (Rect { x: topleft.x, y: topleft.y, w: size.horizontal, h: size.vertical }),
    {
        Rect { x: topleft.x, y: topleft.y, w: size.horizontal, h: size.vertical }
    }

    /// The hull of `rects`, or `None` where there is none.
    pub fn bounding_box(rects: &[Rect]) -> (r: Option<Rect>)
        ensures
            rects@.len() == 0 ==> r is None,
            rects@.len() > 0 ==> r == Some(hull(rects@)),
    {
        if rects.len() == 0 {
            return None;
        }
        let first = rects[0];
        let mut left: i64 = first.x;
        let mut top: i64 = first.y;
        let mut right: i128 = first.x as i128 + first.w as i128;
        let mut bottom: i128 = first.y as i128 + first.h as i128;
        let mut i: usize = 1;
        assert(rects@.take(1) =~= seq![rects@[0]]);
        while i < rects.len()
            invariant
                1 <= i <= rects.len(),
                left == min_left(rects@.take(i as int)),
                top == min_top(rects@.take(i as int)),
                right == max_right(rects@.take(i as int)),
                bottom == max_bottom(rects@.take(i as int)),
                -0x1_0000_0000_0000_0000 <= right <= 0x1_0000_0000_0000_0000,
                -0x1_0000_0000_0000_0000 <= bottom <= 0x1_0000_0000_0000_0000,
            decreases rects.len() - i,
        {
            let rect = rects[i];
            proof {
                let next = rects@.take(i as int + 1);
                assert(next.drop_last() =~= rects@.take(i as int));
                assert(next.last() == rect);
            }
            if rect.x < left {
                left = rect.x;
            }
            if rect.y < top {
                top = rect.y;
            }
            let rect_right: i128 = rect.x as i128 + rect.w as i128;
            if rect_right > right {
                right = rect_right;
            }
            let rect_bottom: i128 = rect.y as i128 + rect.h as i128;
            if rect_bottom > bottom {
                bottom = rect_bottom;
            }
            i = i + 1;
        }
        assert(rects@.take(i as int) =~= rects@);
        Some(
            Rect {
                x: left,
                y: top,
                w: clamp_to_i64(right - left as i128),
                h: clamp_to_i64(bottom - top as i128),
            },
        )
    }

    pub fn left(&self) -> (r: i64)
        ensures
            r == self.x,
    {
        self.x
    }

    /// The right edge, clamped.
    pub open spec fn spec_right(&self) -> i64 {
        clamp(self.x + self.w) as i64
    }

    /// The right edge, clamped.
    #[verifier::when_used_as_spec(spec_right)]
    pub fn right(&self) -> (r: i64)
        ensures
            r == self.spec_right(),
    {
        clamped_add(self.x, self.w)
    }

    pub fn top(&self) -> (r: i64)
        ensures
            r == self.y,
    {
        self.y
    }

    /// The bottom edge, clamped.
    pub open spec fn spec_bottom(&self) -> i64 {
        clamp(self.y + self.h) as i64
    }

    /// The bottom edge, clamped.
    #[verifier::when_used_as_spec(spec_bottom)]
    pub fn bottom(&self) -> (r: i64)
        ensures
            r == self.spec_bottom(),
    {
        clamped_add(self.y, self.h)
    }

    pub fn x(&self) -> (r: i64)
        ensures
            r == self.x,
    {
        self.x
    }

    pub fn y(&self) -> (r: i64)
        ensures
            r == self.y,
    {
        self.y
    }

    pub fn width(&self) -> (r: i64)
        ensures
            r == self.w,
    {
        self.w
    }

    pub fn height(&self) -> (r: i64)
        ensures
            r == self.h,
    {
        self.h
    }

    pub fn top_left(&self) -> (r: Point)
        ensures
            r == (Point { x: self.x, y: self.y }),
    {
        Point::new(self.x, self.y)
    }

    /// The extents of the rectangle.
    pub open spec fn spec_size(&self) -> Size {
        Size { horizontal: self.w, vertical: self.h }
    }

    /// The extents of the rectangle.
    #[verifier::when_used_as_spec(spec_size)]
    pub fn size(&self) -> (r: Size)
        ensures
            r == self.spec_size(),
    {
        Size::new(self.w, self.h)
    }

    /// The same corner, with each extent raised to zero where it is negative.
    pub open spec fn spec_clamp_positive(&self) -> Rect {
        Rect {
            x: self.x,
            y: self.y,
            w: max_int(self.w as int, 0) as i64,
            h: max_int(self.h as int, 0) as i64,
        }
    }

    /// The same corner, with each extent raised to zero where it is negative.
    #[verifier::when_used_as_spec(spec_clamp_positive)]
    pub fn clamp_positive(&self) -> (r: Rect)
        ensures
            r == self.spec_clamp_positive(),
    {
        Rect {
            x: self.x,
            y: self.y,
            w: if self.w < 0 { 0 } else { self.w },
            h: if self.h < 0 { 0 } else { self.h },
        }
    }

    /// `self` with each edge moved outwards by that side of `size`.
    pub open spec fn spec_grow_by(&self, size: SizeRect) -> Rect {
        Rect {
            x: clamp(self.x - size.left) as i64,
            y: clamp(self.y - size.top) as i64,
            w: clamp(self.w + size.left + size.right) as i64,
            h: clamp(self.h + size.top + size.bottom) as i64,
        }
    }

    /// `self` with each edge moved outwards by that side of `size`.
    #[verifier::when_used_as_spec(spec_grow_by)]
    pub fn grow_by(&self, size: SizeRect) -> (r: Rect)
        ensures
            r == self.spec_grow_by(size),
    {
        Rect {
            x: clamp_to_i64(self.x as i128 - size.left as i128),
            y: clamp_to_i64(self.y as i128 - size.top as i128),
            w: clamp_to_i64(self.w as i128 + size.left as i128 + size.right as i128),
            h: clamp_to_i64(self.h as i128 + size.top as i128 + size.bottom as i128),
        }
    }

    /// `self` with each edge moved inwards by that side of `size`. The
    /// extents may come out negative.
    pub open spec fn spec_shrink_by(&self, size: SizeRect) -> Rect {
        Rect {
            x: clamp(self.x + size.left) as i64,
            y: clamp(self.y + size.top) as i64,
            w: clamp(self.w - size.left - size.right) as i64,
            h: clamp(self.h - size.top - size.bottom) as i64,
        }
    }

    /// `self` with each edge moved inwards by that side of `size`. The
    /// extents may come out negative.
    #[verifier::when_used_as_spec(spec_shrink_by)]
    pub fn shrink_by(&self, size: SizeRect) -> (r: Rect)
        ensures
            r == self.spec_shrink_by(size),
    {
        Rect {
            x: clamp_to_i64(self.x as i128 + size.left as i128),
            y: clamp_to_i64(self.y as i128 + size.top as i128),
            w: clamp_to_i64(self.w as i128 - size.left as i128 - size.right as i128),
            h: clamp_to_i64(self.h as i128 - size.top as i128 - size.bottom as i128),
        }
    }

    /// Whether `point` lies in the rectangle.
    pub open spec fn spec_contains(&self, point: Point) -> bool {
        &&& self.x <= point.x < self.x + self.w
        &&& self.y <= point.y < self.y + self.h
    }

    /// Whether `point` lies in the rectangle.
    #[verifier::when_used_as_spec(spec_contains)]
    pub fn contains(&self, point: Point) -> (r: bool)
        ensures
            r == self.spec_contains(point),
    {
        self.x <= point.x && (point.x as i128) < self.x as i128 + self.w as i128 && self.y
            <= point.y && (point.y as i128) < self.y as i128 + self.h as i128
    }

    /// Whether every point of `inner` lies in `self`.
    pub open spec fn encloses(self, inner: Rect) -> bool {
        forall|p: Point| inner.spec_contains(p) ==> self.spec_contains(p)
    }
}

/// The hull of two rectangles has the least of their left and top edges and
/// the greatest of their right and bottom edges.
pub proof fn lemma_hull_of_two(a: Rect, b: Rect)
    ensures
        hull(seq![a, b]).x == min_int(a.x as int, b.x as int),
        hull(seq![a, b]).y == min_int(a.y as int, b.y as int),
        hull(seq![a, b]).w == clamp(
            max_int(a.x + a.w, b.x + b.w) - min_int(a.x as int, b.x as int),
        ),
        hull(seq![a, b]).h == clamp(
            max_int(a.y + a.h, b.y + b.h) - min_int(a.y as int, b.y as int),
        ),
{
    let s = seq![a, b];
    assert(s.drop_last() =~= seq![a]);
    assert(s.last() == b);
    assert(s.drop_last().len() == 1);
    assert(min_left(s.drop_last()) == a.x);
    assert(min_top(s.drop_last()) == a.y);
    assert(max_right(s.drop_last()) == a.x + a.w);
    assert(max_bottom(s.drop_last()) == a.y + a.h);
}

impl Sub for Point {
    type Output = Vector;

    fn sub(self, rhs: Point) -> (r: Vector) {
        self.minus(rhs)
    }
}

impl SubSpecImpl for Point {
    open spec fn obeys_sub_spec() -> bool {
        true
    }

    open spec fn sub_req(self, rhs: Point) -> bool {
        true
    }

    open spec fn sub_spec(self, rhs: Point) -> Vector {
        self.spec_minus(rhs)
    }
}

impl Add<Vector> for Point {
    type Output = Point;

    fn add(self, rhs: Vector) -> (r: Point) {
        self.offset(rhs)
    }
}

impl AddSpecImpl<Vector> for Point {
    open spec fn obeys_add_spec() -> bool {
        true
    }

    open spec fn add_req(self, rhs: Vector) -> bool {
        true
    }

    open spec fn add_spec(self, rhs: Vector) -> Point {
        self.spec_offset(rhs)
    }
}

impl Add for Vector {
    type Output = Vector;

    fn add(self, rhs: Vector) -> (r: Vector) {
        self.plus(rhs)
    }
}

impl AddSpecImpl for Vector {
    open spec fn obeys_add_spec() -> bool {
        true
    }

    open spec fn add_req(self, rhs: Vector) -> bool {
        true
    }

    open spec fn add_spec(self, rhs: Vector) -> Vector {
        self.spec_plus(rhs)
    }
}

impl Sub for Vector {
    type Output = Vector;

    fn sub(self, rhs: Vector) -> (r: Vector) {
        self.minus(rhs)
    }
}

impl SubSpecImpl for Vector {
    open spec fn obeys_sub_spec() -> bool {
        true
    }

    open spec fn sub_req(self, rhs: Vector) -> bool {
        true
    }

    open spec fn sub_spec(self, rhs: Vector) -> Vector {
        self.spec_minus(rhs)
    }
}

impl Add<Point> for Vector {
    type Output = Point;

    fn add(self, rhs: Point) -> (r: Point) {
        rhs.offset(self)
    }
}

impl AddSpecImpl<Point> for Vector {
    open spec fn obeys_add_spec() -> bool {
        true
    }

    open spec fn add_req(self, rhs: Point) -> bool {
        true
    }

    open spec fn add_spec(self, rhs: Point) -> Point {
        rhs.spec_offset(self)
    }
}

impl Add for Size {
    type Output = Size;

    fn add(self, rhs: Size) -> (r: Size) {
        self.plus(rhs)
    }
}

impl AddSpecImpl for Size {
    open spec fn obeys_add_spec() -> bool {
        true
    }

    open spec fn add_req(self, rhs: Size) -> bool {
        true
    }

    open spec fn add_spec(self, rhs: Size) -> Size {
        self.spec_plus(rhs)
    }
}

impl Sub for Size {
    type Output = Size;

    fn sub(self, rhs: Size) -> (r: Size) {
        self.minus(rhs)
    }
}

impl SubSpecImpl for Size {
    open spec fn obeys_sub_spec() -> bool {
        true
    }

    open spec fn sub_req(self, rhs: Size) -> bool {
        true
    }

    open spec fn sub_spec(self, rhs: Size) -> Size {
        self.spec_minus(rhs)
    }
}

impl Add for SizeRect {
    type Output = SizeRect;

    fn add(self, rhs: SizeRect) -> (r: SizeRect) {
        self.plus(rhs)
    }
}

impl AddSpecImpl for SizeRect {
    open spec fn obeys_add_spec() -> bool {
        true
    }

    open spec fn add_req(self, rhs: SizeRect) -> bool {
        true
    }

    open spec fn add_spec(self, rhs: SizeRect) -> SizeRect {
        self.spec_plus(rhs)
    }
}

impl Sub for SizeRect {
    type Output = SizeRect;

    fn sub(self, rhs: SizeRect) -> (r: SizeRect) {
        self.minus(rhs)
    }
}

impl SubSpecImpl for SizeRect {
    open spec fn obeys_sub_spec() -> bool {
        true
    }

    open spec fn sub_req(self, rhs: SizeRect) -> bool {
        true
    }

    open spec fn sub_spec(self, rhs: SizeRect) -> SizeRect {
        self.spec_minus(rhs)
    }
}

impl Mul<u32> for Size {
    type Output = Size;

    fn mul(self, rhs: u32) -> (r: Size) {
        self.scaled(rhs)
    }
}

impl MulSpecImpl<u32> for Size {
    open spec fn obeys_mul_spec() -> bool {
        true
    }

    open spec fn mul_req(self, rhs: u32) -> bool {
        true
    }

    open spec fn mul_spec(self, rhs: u32) -> Size {
        self.spec_scaled(rhs)
    }
}

impl Mul<u32> for SizeRect {
    type Output = SizeRect;

    fn mul(self, rhs: u32) -> (r: SizeRect) {
        self.scaled(rhs)
    }
}

impl MulSpecImpl<u32> for SizeRect {
    open spec fn obeys_mul_spec() -> bool {
        true
    }

    open spec fn mul_req(self, rhs: u32) -> bool {
        true
    }

    open spec fn mul_spec(self, rhs: u32) -> SizeRect {
        self.spec_scaled(rhs)
    }
}

impl From<(i64, i64)> for Point {
    fn from(value: (i64, i64)) -> (r: Point) {
        Point { x: value.0, y: value.1 }
    }
}

impl FromSpecImpl<(i64, i64)> for Point {
    open spec fn obeys_from_spec() -> bool {
        true
    }

    open spec fn from_spec(value: (i64, i64)) -> Point {
        Point { x: value.0, y: value.1 }
    }
}

impl From<u64> for SizeRect {
    fn from(value: u64) -> (r: SizeRect) {
        SizeRect::new(value, value, value, value)
    }
}

impl FromSpecImpl<u64> for SizeRect {
    open spec fn obeys_from_spec() -> bool {
        true
    }

    open spec fn from_spec(value: u64) -> SizeRect {
        SizeRect { left: value, right: value, top: value, bottom: value }
    }
}

impl From<(u64, u64)> for SizeRect {
    fn from(value: (u64, u64)) -> (r: SizeRect) {
        SizeRect::new(value.0, value.0, value.1, value.1)
    }
}

impl FromSpecImpl<(u64, u64)> for SizeRect {
    open spec fn obeys_from_spec() -> bool {
        true
    }

    open spec fn from_spec(value: (u64, u64)) -> SizeRect {
        SizeRect { left: value.0, right: value.0, top: value.1, bottom: value.1 }
    }
}

impl From<(u64, u64, u64, u64)> for SizeRect {
    fn from(value: (u64, u64, u64, u64)) -> (r: SizeRect) {
        SizeRect::new(value.0, value.1, value.2, value.3)
    }
}

impl FromSpecImpl<(u64, u64, u64, u64)> for SizeRect {
    open spec fn obeys_from_spec() -> bool {
        true
    }

    open spec fn from_spec(value: (u64, u64, u64, u64)) -> SizeRect {
        SizeRect { left: value.0, right: value.1, top: value.2, bottom: value.3 }
    }
}

} // verus!
