//! Cast utilities.

use vstd::prelude::*;

verus! {

/// An integer type: its values stand for whole numbers.
pub trait Integer: Sized {
    /// The number that a value stands for.
    spec fn number(self) -> int;

    /// The count of different values of the type.
    spec fn count() -> int;
}

impl Integer for u8 {
    open spec fn number(self) -> int {
        self as int
    }

    open spec fn count() -> int {
        u8::MAX + 1
    }
}

impl Integer for u16 {
    open spec fn number(self) -> int {
        self as int
    }

    open spec fn count() -> int {
        u16::MAX + 1
    }
}

impl Integer for u32 {
    open spec fn number(self) -> int {
        self as int
    }

    open spec fn count() -> int {
        u32::MAX + 1
    }
}

impl Integer for u64 {
    open spec fn number(self) -> int {
        self as int
    }

    open spec fn count() -> int {
        u64::MAX + 1
    }
}

impl Integer for u128 {
    open spec fn number(self) -> int {
        self as int
    }

    open spec fn count() -> int {
        u128::MAX + 1
    }
}

impl Integer for i8 {
    open spec fn number(self) -> int {
        self as int
    }

    open spec fn count() -> int {
        u8::MAX + 1
    }
}

impl Integer for i16 {
    open spec fn number(self) -> int {
        self as int
    }

    open spec fn count() -> int {
        u16::MAX + 1
    }
}

impl Integer for i32 {
    open spec fn number(self) -> int {
        self as int
    }

    open spec fn count() -> int {
        u32::MAX + 1
    }
}

impl Integer for i64 {
    open spec fn number(self) -> int {
        self as int
    }

    open spec fn count() -> int {
        u64::MAX + 1
    }
}

impl Integer for i128 {
    open spec fn number(self) -> int {
        self as int
    }

    open spec fn count() -> int {
        u128::MAX + 1
    }
}

impl Integer for usize {
    open spec fn number(self) -> int {
        self as int
    }

    open spec fn count() -> int {
        usize::MAX + 1
    }
}

impl Integer for isize {
    open spec fn number(self) -> int {
        self as int
    }

    open spec fn count() -> int {
        usize::MAX + 1
    }
}

/// A trait for safe, simple, and infallible casts.
///
/// `CastFrom` is like [`std::convert::From`], but it is implemented for some
/// platform-specific casts that are missing from the standard library. For
/// example, there is no `From<u32> for usize` implementation, because Rust may
/// someday support platforms where usize is smaller than 32 bits.
///
/// `CastFrom` should be preferred to the `as` operator, since the `as` operator
/// will silently truncate if the target type is smaller than the source type.
pub trait CastFrom<T: Integer>: Integer {
    /// Whether the platform can represent the number in the target type. It always can, but where
    /// the target has the platform's word size and the source is wider than the smallest word.
    spec fn representable(from: T) -> bool;

    /// Performs the cast, which keeps the number.
    fn cast_from(from: T) -> (to: Self)
        requires
            Self::representable(from),
        ensures
            to.number() == from.number(),
    ;
}

impl CastFrom<u8> for usize {
    open spec fn representable(from: u8) -> bool {
        true
    }

    fn cast_from(from: u8) -> usize {
        u8_to_usize(from)
    }
}

/// Casts [`u8`] to [`usize`].
pub fn u8_to_usize(from: u8) -> (to: usize)
    ensures
        to == from,
{
    from as usize
}

impl CastFrom<u16> for usize {
    open spec fn representable(from: u16) -> bool {
        true
    }

    fn cast_from(from: u16) -> usize {
        u16_to_usize(from)
    }
}

/// Casts [`u16`] to [`usize`].
pub fn u16_to_usize(from: u16) -> (to: usize)
    ensures
        to == from,
{
    from as usize
}

impl CastFrom<u32> for usize {
    open spec fn representable(from: u32) -> bool {
        true
    }

    fn cast_from(from: u32) -> usize {
        u32_to_usize(from)
    }
}

/// Casts [`u32`] to [`usize`].
pub fn u32_to_usize(from: u32) -> (to: usize)
    ensures
        to == from,
{
    from as usize
}

impl CastFrom<u8> for isize {
    open spec fn representable(from: u8) -> bool {
        true
    }

    fn cast_from(from: u8) -> isize {
        u8_to_isize(from)
    }
}

/// Casts [`u8`] to [`isize`].
pub fn u8_to_isize(from: u8) -> (to: isize)
    ensures
        to == from,
{
    from as isize
}

impl CastFrom<i8> for isize {
    open spec fn representable(from: i8) -> bool {
        true
    }

    fn cast_from(from: i8) -> isize {
        i8_to_isize(from)
    }
}

/// Casts [`i8`] to [`isize`].
pub fn i8_to_isize(from: i8) -> (to: isize)
    ensures
        to == from,
{
    from as isize
}

impl CastFrom<u16> for isize {
    open spec fn representable(from: u16) -> bool {
        true
    }

    fn cast_from(from: u16) -> isize {
        u16_to_isize(from)
    }
}

/// Casts [`u16`] to [`isize`].
pub fn u16_to_isize(from: u16) -> (to: isize)
    ensures
        to == from,
{
    from as isize
}

impl CastFrom<i16> for isize {
    open spec fn representable(from: i16) -> bool {
        true
    }

    fn cast_from(from: i16) -> isize {
        i16_to_isize(from)
    }
}

/// Casts [`i16`] to [`isize`].
pub fn i16_to_isize(from: i16) -> (to: isize)
    ensures
        to == from,
{
    from as isize
}

impl CastFrom<u32> for isize {
    open spec fn representable(from: u32) -> bool {
        from <= isize::MAX
    }

    fn cast_from(from: u32) -> isize {
        u32_to_isize(from)
    }
}

/// Casts [`u32`] to [`isize`].
pub fn u32_to_isize(from: u32) -> (to: isize)
    requires
        from <= isize::MAX,
    ensures
        to == from,
{
    from as isize
}

impl CastFrom<i32> for isize {
    open spec fn representable(from: i32) -> bool {
        true
    }

    fn cast_from(from: i32) -> isize {
        i32_to_isize(from)
    }
}

/// Casts [`i32`] to [`isize`].
pub fn i32_to_isize(from: i32) -> (to: isize)
    ensures
        to == from,
{
    from as isize
}

impl CastFrom<usize> for u128 {
    open spec fn representable(from: usize) -> bool {
        true
    }

    fn cast_from(from: usize) -> u128 {
        usize_to_u128(from)
    }
}

/// Casts [`usize`] to [`u128`].
pub fn usize_to_u128(from: usize) -> (to: u128)
    ensures
        to == from,
{
    from as u128
}

impl CastFrom<usize> for i128 {
    open spec fn representable(from: usize) -> bool {
        true
    }

    fn cast_from(from: usize) -> i128 {
        usize_to_i128(from)
    }
}

/// Casts [`usize`] to [`i128`].
pub fn usize_to_i128(from: usize) -> (to: i128)
    ensures
        to == from,
{
    from as i128
}

impl CastFrom<isize> for i128 {
    open spec fn representable(from: isize) -> bool {
        true
    }

    fn cast_from(from: isize) -> i128 {
        isize_to_i128(from)
    }
}

/// Casts [`isize`] to [`i128`].
pub fn isize_to_i128(from: isize) -> (to: i128)
    ensures
        to == from,
{
    from as i128
}

impl CastFrom<usize> for u64 {
    open spec fn representable(from: usize) -> bool {
        true
    }

    fn cast_from(from: usize) -> u64 {
        usize_to_u64(from)
    }
}

/// Casts [`usize`] to [`u64`].
pub fn usize_to_u64(from: usize) -> (to: u64)
    ensures
        to == from,
{
    from as u64
}

impl CastFrom<isize> for i64 {
    open spec fn representable(from: isize) -> bool {
        true
    }

    fn cast_from(from: isize) -> i64 {
        isize_to_i64(from)
    }
}

/// Casts [`isize`] to [`i64`].
pub fn isize_to_i64(from: isize) -> (to: i64)
    ensures
        to == from,
{
    from as i64
}

impl CastFrom<u64> for usize {
    open spec fn representable(from: u64) -> bool {
        from <= usize::MAX
    }

    fn cast_from(from: u64) -> usize {
        u64_to_usize(from)
    }
}

/// Casts [`u64`] to [`usize`].
pub fn u64_to_usize(from: u64) -> (to: usize)
    requires
        from <= usize::MAX,
    ensures
        to == from,
{
    from as usize
}

impl CastFrom<i64> for isize {
    open spec fn representable(from: i64) -> bool {
        isize::MIN <= from <= isize::MAX
    }

    fn cast_from(from: i64) -> isize {
        i64_to_isize(from)
    }
}

/// Casts [`i64`] to [`isize`].
pub fn i64_to_isize(from: i64) -> (to: isize)
    requires
        isize::MIN <= from <= isize::MAX,
    ensures
        to == from,
{
    from as isize
}

impl CastFrom<u8> for u8 {
    open spec fn representable(from: u8) -> bool {
        true
    }

    fn cast_from(from: u8) -> u8 {
        u8_to_u8(from)
    }
}

/// Casts [`u8`] to [`u8`].
pub fn u8_to_u8(from: u8) -> (to: u8)
    ensures
        to == from,
{
    from
}

impl CastFrom<u8> for u16 {
    open spec fn representable(from: u8) -> bool {
        true
    }

    fn cast_from(from: u8) -> u16 {
        u8_to_u16(from)
    }
}

/// Casts [`u8`] to [`u16`].
pub fn u8_to_u16(from: u8) -> (to: u16)
    ensures
        to == from,
{
    from as u16
}

impl CastFrom<u8> for i16 {
    open spec fn representable(from: u8) -> bool {
        true
    }

    fn cast_from(from: u8) -> i16 {
        u8_to_i16(from)
    }
}

/// Casts [`u8`] to [`i16`].
pub fn u8_to_i16(from: u8) -> (to: i16)
    ensures
        to == from,
{
    from as i16
}

impl CastFrom<u8> for u32 {
    open spec fn representable(from: u8) -> bool {
        true
    }

    fn cast_from(from: u8) -> u32 {
        u8_to_u32(from)
    }
}

/// Casts [`u8`] to [`u32`].
pub fn u8_to_u32(from: u8) -> (to: u32)
    ensures
        to == from,
{
    from as u32
}

impl CastFrom<u8> for i32 {
    open spec fn representable(from: u8) -> bool {
        true
    }

    fn cast_from(from: u8) -> i32 {
        u8_to_i32(from)
    }
}

/// Casts [`u8`] to [`i32`].
pub fn u8_to_i32(from: u8) -> (to: i32)
    ensures
        to == from,
{
    from as i32
}

impl CastFrom<u8> for u64 {
    open spec fn representable(from: u8) -> bool {
        true
    }

    fn cast_from(from: u8) -> u64 {
        u8_to_u64(from)
    }
}

/// Casts [`u8`] to [`u64`].
pub fn u8_to_u64(from: u8) -> (to: u64)
    ensures
        to == from,
{
    from as u64
}

impl CastFrom<u8> for i64 {
    open spec fn representable(from: u8) -> bool {
        true
    }

    fn cast_from(from: u8) -> i64 {
        u8_to_i64(from)
    }
}

/// Casts [`u8`] to [`i64`].
pub fn u8_to_i64(from: u8) -> (to: i64)
    ensures
        to == from,
{
    from as i64
}

impl CastFrom<u8> for u128 {
    open spec fn representable(from: u8) -> bool {
        true
    }

    fn cast_from(from: u8) -> u128 {
        u8_to_u128(from)
    }
}

/// Casts [`u8`] to [`u128`].
pub fn u8_to_u128(from: u8) -> (to: u128)
    ensures
        to == from,
{
    from as u128
}

impl CastFrom<u8> for i128 {
    open spec fn representable(from: u8) -> bool {
        true
    }

    fn cast_from(from: u8) -> i128 {
        u8_to_i128(from)
    }
}

/// Casts [`u8`] to [`i128`].
pub fn u8_to_i128(from: u8) -> (to: i128)
    ensures
        to == from,
{
    from as i128
}

impl CastFrom<u16> for u16 {
    open spec fn representable(from: u16) -> bool {
        true
    }

    fn cast_from(from: u16) -> u16 {
        u16_to_u16(from)
    }
}

/// Casts [`u16`] to [`u16`].
pub fn u16_to_u16(from: u16) -> (to: u16)
    ensures
        to == from,
{
    from
}

impl CastFrom<u16> for u32 {
    open spec fn representable(from: u16) -> bool {
        true
    }

    fn cast_from(from: u16) -> u32 {
        u16_to_u32(from)
    }
}

/// Casts [`u16`] to [`u32`].
pub fn u16_to_u32(from: u16) -> (to: u32)
    ensures
        to == from,
{
    from as u32
}

impl CastFrom<u16> for i32 {
    open spec fn representable(from: u16) -> bool {
        true
    }

    fn cast_from(from: u16) -> i32 {
        u16_to_i32(from)
    }
}

/// Casts [`u16`] to [`i32`].
pub fn u16_to_i32(from: u16) -> (to: i32)
    ensures
        to == from,
{
    from as i32
}

impl CastFrom<u16> for u64 {
    open spec fn representable(from: u16) -> bool {
        true
    }

    fn cast_from(from: u16) -> u64 {
        u16_to_u64(from)
    }
}

/// Casts [`u16`] to [`u64`].
pub fn u16_to_u64(from: u16) -> (to: u64)
    ensures
        to == from,
{
    from as u64
}

impl CastFrom<u16> for i64 {
    open spec fn representable(from: u16) -> bool {
        true
    }

    fn cast_from(from: u16) -> i64 {
        u16_to_i64(from)
    }
}

/// Casts [`u16`] to [`i64`].
pub fn u16_to_i64(from: u16) -> (to: i64)
    ensures
        to == from,
{
    from as i64
}

impl CastFrom<u16> for u128 {
    open spec fn representable(from: u16) -> bool {
        true
    }

    fn cast_from(from: u16) -> u128 {
        u16_to_u128(from)
    }
}

/// Casts [`u16`] to [`u128`].
pub fn u16_to_u128(from: u16) -> (to: u128)
    ensures
        to == from,
{
    from as u128
}

impl CastFrom<u16> for i128 {
    open spec fn representable(from: u16) -> bool {
        true
    }

    fn cast_from(from: u16) -> i128 {
        u16_to_i128(from)
    }
}

/// Casts [`u16`] to [`i128`].
pub fn u16_to_i128(from: u16) -> (to: i128)
    ensures
        to == from,
{
    from as i128
}

impl CastFrom<u32> for u32 {
    open spec fn representable(from: u32) -> bool {
        true
    }

    fn cast_from(from: u32) -> u32 {
        u32_to_u32(from)
    }
}

/// Casts [`u32`] to [`u32`].
pub fn u32_to_u32(from: u32) -> (to: u32)
    ensures
        to == from,
{
    from
}

impl CastFrom<u32> for u64 {
    open spec fn representable(from: u32) -> bool {
        true
    }

    fn cast_from(from: u32) -> u64 {
        u32_to_u64(from)
    }
}

/// Casts [`u32`] to [`u64`].
pub fn u32_to_u64(from: u32) -> (to: u64)
    ensures
        to == from,
{
    from as u64
}

impl CastFrom<u32> for i64 {
    open spec fn representable(from: u32) -> bool {
        true
    }

    fn cast_from(from: u32) -> i64 {
        u32_to_i64(from)
    }
}

/// Casts [`u32`] to [`i64`].
pub fn u32_to_i64(from: u32) -> (to: i64)
    ensures
        to == from,
{
    from as i64
}

impl CastFrom<u32> for u128 {
    open spec fn representable(from: u32) -> bool {
        true
    }

    fn cast_from(from: u32) -> u128 {
        u32_to_u128(from)
    }
}

/// Casts [`u32`] to [`u128`].
pub fn u32_to_u128(from: u32) -> (to: u128)
    ensures
        to == from,
{
    from as u128
}

impl CastFrom<u32> for i128 {
    open spec fn representable(from: u32) -> bool {
        true
    }

    fn cast_from(from: u32) -> i128 {
        u32_to_i128(from)
    }
}

/// Casts [`u32`] to [`i128`].
pub fn u32_to_i128(from: u32) -> (to: i128)
    ensures
        to == from,
{
    from as i128
}

impl CastFrom<u64> for u64 {
    open spec fn representable(from: u64) -> bool {
        true
    }

    fn cast_from(from: u64) -> u64 {
        u64_to_u64(from)
    }
}

/// Casts [`u64`] to [`u64`].
pub fn u64_to_u64(from: u64) -> (to: u64)
    ensures
        to == from,
{
    from
}

impl CastFrom<u64> for u128 {
    open spec fn representable(from: u64) -> bool {
        true
    }

    fn cast_from(from: u64) -> u128 {
        u64_to_u128(from)
    }
}

/// Casts [`u64`] to [`u128`].
pub fn u64_to_u128(from: u64) -> (to: u128)
    ensures
        to == from,
{
    from as u128
}

impl CastFrom<u64> for i128 {
    open spec fn representable(from: u64) -> bool {
        true
    }

    fn cast_from(from: u64) -> i128 {
        u64_to_i128(from)
    }
}

/// Casts [`u64`] to [`i128`].
pub fn u64_to_i128(from: u64) -> (to: i128)
    ensures
        to == from,
{
    from as i128
}

impl CastFrom<i8> for i8 {
    open spec fn representable(from: i8) -> bool {
        true
    }

    fn cast_from(from: i8) -> i8 {
        i8_to_i8(from)
    }
}

/// Casts [`i8`] to [`i8`].
pub fn i8_to_i8(from: i8) -> (to: i8)
    ensures
        to == from,
{
    from
}

impl CastFrom<i8> for i16 {
    open spec fn representable(from: i8) -> bool {
        true
    }

    fn cast_from(from: i8) -> i16 {
        i8_to_i16(from)
    }
}

/// Casts [`i8`] to [`i16`].
pub fn i8_to_i16(from: i8) -> (to: i16)
    ensures
        to == from,
{
    from as i16
}

impl CastFrom<i8> for i32 {
    open spec fn representable(from: i8) -> bool {
        true
    }

    fn cast_from(from: i8) -> i32 {
        i8_to_i32(from)
    }
}

/// Casts [`i8`] to [`i32`].
pub fn i8_to_i32(from: i8) -> (to: i32)
    ensures
        to == from,
{
    from as i32
}

impl CastFrom<i8> for i64 {
    open spec fn representable(from: i8) -> bool {
        true
    }

    fn cast_from(from: i8) -> i64 {
        i8_to_i64(from)
    }
}

/// Casts [`i8`] to [`i64`].
pub fn i8_to_i64(from: i8) -> (to: i64)
    ensures
        to == from,
{
    from as i64
}

impl CastFrom<i8> for i128 {
    open spec fn representable(from: i8) -> bool {
        true
    }

    fn cast_from(from: i8) -> i128 {
        i8_to_i128(from)
    }
}

/// Casts [`i8`] to [`i128`].
pub fn i8_to_i128(from: i8) -> (to: i128)
    ensures
        to == from,
{
    from as i128
}

impl CastFrom<i16> for i16 {
    open spec fn representable(from: i16) -> bool {
        true
    }

    fn cast_from(from: i16) -> i16 {
        i16_to_i16(from)
    }
}

/// Casts [`i16`] to [`i16`].
pub fn i16_to_i16(from: i16) -> (to: i16)
    ensures
        to == from,
{
    from
}

impl CastFrom<i16> for i32 {
    open spec fn representable(from: i16) -> bool {
        true
    }

    fn cast_from(from: i16) -> i32 {
        i16_to_i32(from)
    }
}

/// Casts [`i16`] to [`i32`].
pub fn i16_to_i32(from: i16) -> (to: i32)
    ensures
        to == from,
{
    from as i32
}

impl CastFrom<i16> for i64 {
    open spec fn representable(from: i16) -> bool {
        true
    }

    fn cast_from(from: i16) -> i64 {
        i16_to_i64(from)
    }
}

/// Casts [`i16`] to [`i64`].
pub fn i16_to_i64(from: i16) -> (to: i64)
    ensures
        to == from,
{
    from as i64
}

impl CastFrom<i16> for i128 {
    open spec fn representable(from: i16) -> bool {
        true
    }

    fn cast_from(from: i16) -> i128 {
        i16_to_i128(from)
    }
}

/// Casts [`i16`] to [`i128`].
pub fn i16_to_i128(from: i16) -> (to: i128)
    ensures
        to == from,
{
    from as i128
}

impl CastFrom<i32> for i32 {
    open spec fn representable(from: i32) -> bool {
        true
    }

    fn cast_from(from: i32) -> i32 {
        i32_to_i32(from)
    }
}

/// Casts [`i32`] to [`i32`].
pub fn i32_to_i32(from: i32) -> (to: i32)
    ensures
        to == from,
{
    from
}

impl CastFrom<i32> for i64 {
    open spec fn representable(from: i32) -> bool {
        true
    }

    fn cast_from(from: i32) -> i64 {
        i32_to_i64(from)
    }
}

/// Casts [`i32`] to [`i64`].
pub fn i32_to_i64(from: i32) -> (to: i64)
    ensures
        to == from,
{
    from as i64
}

impl CastFrom<i32> for i128 {
    open spec fn representable(from: i32) -> bool {
        true
    }

    fn cast_from(from: i32) -> i128 {
        i32_to_i128(from)
    }
}

/// Casts [`i32`] to [`i128`].
pub fn i32_to_i128(from: i32) -> (to: i128)
    ensures
        to == from,
{
    from as i128
}

impl CastFrom<i64> for i64 {
    open spec fn representable(from: i64) -> bool {
        true
    }

    fn cast_from(from: i64) -> i64 {
        i64_to_i64(from)
    }
}

/// Casts [`i64`] to [`i64`].
pub fn i64_to_i64(from: i64) -> (to: i64)
    ensures
        to == from,
{
    from
}

impl CastFrom<i64> for i128 {
    open spec fn representable(from: i64) -> bool {
        true
    }

    fn cast_from(from: i64) -> i128 {
        i64_to_i128(from)
    }
}

/// Casts [`i64`] to [`i128`].
pub fn i64_to_i128(from: i64) -> (to: i128)
    ensures
        to == from,
{
    from as i128
}

/// A trait for reinterpreting casts.
///
/// `ReinterpretCast` is like `as`, but it allows the caller to be specific about their
/// intentions to reinterpreting the bytes from one type to another. For example, if we
/// have some `u32` that we want to use as the return value of a postgres function, and
/// we don't mind converting large unsigned numbers to negative signed numbers, then
/// we would use `ReinterpretCast<i32>`.
///
/// `ReinterpretCast` should be preferred to the `as` operator, since it explicitly
/// conveys the intention to reinterpret the type.
pub trait ReinterpretCast<T: Integer>: Integer {
    /// Performs the cast: the two types have as many values, and the numbers before and after
    /// differ by a multiple of their count.
    fn reinterpret_cast(from: T) -> (to: Self)
        ensures
            Self::count() == T::count(),
            (to.number() - from.number()) % Self::count() == 0,
    ;
}

impl ReinterpretCast<u8> for i8 {
    fn reinterpret_cast(from: u8) -> (to: i8)
        ensures
            to == if from < 0x80 {
                from as int
            } else {
                from - 0x100
            },
    {
        assert(from < 0x80 ==> from as i8 == from) by (bit_vector);
        assert(from >= 0x80 ==> from as i8 == from - 0x100) by (bit_vector);
        #[verifier::truncate]
        (from as i8)
    }
}

impl ReinterpretCast<i8> for u8 {
    fn reinterpret_cast(from: i8) -> (to: u8)
        ensures
            to == if from >= 0 {
                from as int
            } else {
                from + 0x100
            },
    {
        assert(from >= 0 ==> from as u8 == from) by (bit_vector);
        assert(from < 0 ==> from as u8 == from + 0x100) by (bit_vector);
        #[verifier::truncate]
        (from as u8)
    }
}

impl ReinterpretCast<u16> for i16 {
    fn reinterpret_cast(from: u16) -> (to: i16)
        ensures
            to == if from < 0x8000 {
                from as int
            } else {
                from - 0x1_0000
            },
    {
        assert(from < 0x8000 ==> from as i16 == from) by (bit_vector);
        assert(from >= 0x8000 ==> from as i16 == from - 0x1_0000) by (bit_vector);
        #[verifier::truncate]
        (from as i16)
    }
}

impl ReinterpretCast<i16> for u16 {
    fn reinterpret_cast(from: i16) -> (to: u16)
        ensures
            to == if from >= 0 {
                from as int
            } else {
                from + 0x1_0000
            },
    {
        assert(from >= 0 ==> from as u16 == from) by (bit_vector);
        assert(from < 0 ==> from as u16 == from + 0x1_0000) by (bit_vector);
        #[verifier::truncate]
        (from as u16)
    }
}

impl ReinterpretCast<u32> for i32 {
    fn reinterpret_cast(from: u32) -> (to: i32)
        ensures
            to == if from < 0x8000_0000 {
                from as int
            } else {
                from - 0x1_0000_0000
            },
    {
        assert(from < 0x8000_0000 ==> from as i32 == from) by (bit_vector);
        assert(from >= 0x8000_0000 ==> from as i32 == from - 0x1_0000_0000) by (bit_vector);
        #[verifier::truncate]
        (from as i32)
    }
}

impl ReinterpretCast<i32> for u32 {
    fn reinterpret_cast(from: i32) -> (to: u32)
        ensures
            to == if from >= 0 {
                from as int
            } else {
                from + 0x1_0000_0000
            },
    {
        assert(from >= 0 ==> from as u32 == from) by (bit_vector);
        assert(from < 0 ==> from as u32 == from + 0x1_0000_0000) by (bit_vector);
        #[verifier::truncate]
        (from as u32)
    }
}

impl ReinterpretCast<u64> for i64 {
    fn reinterpret_cast(from: u64) -> (to: i64)
        ensures
            to == if from < 0x8000_0000_0000_0000 {
                from as int
            } else {
                from - 0x1_0000_0000_0000_0000
            },
    {
        assert(from < 0x8000_0000_0000_0000 ==> from as i64 == from) by (bit_vector);
        assert(from >= 0x8000_0000_0000_0000 ==> from as i64 == from - 0x1_0000_0000_0000_0000)
            by (bit_vector);
        #[verifier::truncate]
        (from as i64)
    }
}

impl ReinterpretCast<i64> for u64 {
    fn reinterpret_cast(from: i64) -> (to: u64)
        ensures
            to == if from >= 0 {
                from as int
            } else {
                from + 0x1_0000_0000_0000_0000
            },
    {
        assert(from >= 0 ==> from as u64 == from) by (bit_vector);
        assert(from < 0 ==> from as u64 == from + 0x1_0000_0000_0000_0000) by (bit_vector);
        #[verifier::truncate]
        (from as u64)
    }
}

/// A trait for attempted casts.
///
/// `TryCastFrom` is like `as`, but returns `None` if
/// the conversion can't be round-tripped.
///
/// Note: there may be holes in the domain of `try_cast_from`. For example, `i64::MAX` can be
/// converted to a double-precision number, but `i64::MAX - 1` can't.
pub trait TryCastFrom<T>: Sized {
    /// Whether `to` is what the cast of `from` gives.
    spec fn casts(from: T, to: Option<Self>) -> bool;

    /// Attempts to perform the cast
    fn try_cast_from(from: T) -> (to: Option<Self>)
        ensures
            Self::casts(from, to),
    ;
}

/// The signed integer types.
pub trait Signed: Integer + Copy {
    /// Zero.
    fn zero() -> (zero: Self)
        ensures
            zero.number() == 0,
    ;

    /// Whether the number is below zero.
    fn is_negative(&self) -> (negative: bool)
        ensures
            negative == (self.number() < 0),
    ;
}

/// The integer types with a greatest value.
pub trait UpperBounded: Integer {
    /// The greatest number of the type.
    spec fn greatest() -> int;

    /// The greatest value of the type.
    fn max_value() -> (max: Self)
        ensures
            max.number() == Self::greatest(),
            max.number() >= 0,
    ;
}

impl Signed for i8 {
    fn zero() -> i8 {
        0
    }

    fn is_negative(&self) -> bool {
        *self < 0
    }
}

impl UpperBounded for i8 {
    open spec fn greatest() -> int {
        i8::MAX as int
    }

    fn max_value() -> i8 {
        i8::MAX
    }
}

impl Signed for i16 {
    fn zero() -> i16 {
        0
    }

    fn is_negative(&self) -> bool {
        *self < 0
    }
}

impl UpperBounded for i16 {
    open spec fn greatest() -> int {
        i16::MAX as int
    }

    fn max_value() -> i16 {
        i16::MAX
    }
}

impl Signed for i32 {
    fn zero() -> i32 {
        0
    }

    fn is_negative(&self) -> bool {
        *self < 0
    }
}

impl UpperBounded for i32 {
    open spec fn greatest() -> int {
        i32::MAX as int
    }

    fn max_value() -> i32 {
        i32::MAX
    }
}

impl Signed for i64 {
    fn zero() -> i64 {
        0
    }

    fn is_negative(&self) -> bool {
        *self < 0
    }
}

impl UpperBounded for i64 {
    open spec fn greatest() -> int {
        i64::MAX as int
    }

    fn max_value() -> i64 {
        i64::MAX
    }
}

impl Signed for i128 {
    fn zero() -> i128 {
        0
    }

    fn is_negative(&self) -> bool {
        *self < 0
    }
}

impl UpperBounded for i128 {
    open spec fn greatest() -> int {
        i128::MAX as int
    }

    fn max_value() -> i128 {
        i128::MAX
    }
}

impl Signed for isize {
    fn zero() -> isize {
        0
    }

    fn is_negative(&self) -> bool {
        *self < 0
    }
}

impl UpperBounded for isize {
    open spec fn greatest() -> int {
        isize::MAX as int
    }

    fn max_value() -> isize {
        isize::MAX
    }
}

/// A wrapper type which ensures a signed number is non-negative.
#[derive(Debug, Copy, PartialEq, Eq, PartialOrd, Ord)]
pub struct NonNeg<T: Signed>(T);

impl<T: Signed> NonNeg<T> {
    /// The wrapped number is not below zero.
    #[verifier::type_invariant]
    spec fn non_negative(self) -> bool {
        self.0.number() >= 0
    }
}

impl<T: Signed> Integer for NonNeg<T> {
    closed spec fn number(self) -> int {
        self.0.number()
    }

    open spec fn count() -> int {
        T::count() / 2
    }
}

impl<T: Signed> Clone for NonNeg<T> {
    fn clone(&self) -> (copy: Self)
        ensures
            copy == *self,
    {
        *self
    }
}

/// An error indicating the attempted construction of a `NonNeg` with a negative
/// number.
#[derive(Debug, Clone, Copy)]
pub struct NonNegError;

impl<T: Signed> NonNeg<T> {
    /// Returns the minimum value of the type.
    pub fn min() -> (min: NonNeg<T>)
        ensures
            min.number() == 0,
    {
        NonNeg(T::zero())
    }

    /// Returns the maximum value of the type.
    pub fn max() -> (max: NonNeg<T>) where T: UpperBounded
        ensures
            max.number() == T::greatest(),
    {
        NonNeg(T::max_value())
    }

    /// Attempts to construct a `NonNeg` from its underlying type.
    ///
    /// Returns an error if `n` is negative.
    pub fn try_from(n: T) -> (wrapped: Result<NonNeg<T>, NonNegError>)
        ensures
            wrapped is Ok <==> n.number() >= 0,
            wrapped matches Ok(wrapped) ==> wrapped.number() == n.number(),
    {
        match n.is_negative() {
            false => Ok(NonNeg(n)),
            true => Err(NonNegError),
        }
    }
}

impl<T: Signed> std::ops::Deref for NonNeg<T> {
    type Target = T;

    fn deref(&self) -> (number: &T)
        ensures
            number.number() == self.number(),
            number.number() >= 0,
    {
        proof {
            use_type_invariant(self);
        }
        &self.0
    }
}

impl From<NonNeg<i64>> for u64 {
    fn from(n: NonNeg<i64>) -> (number: u64)
        ensures
            number == n.number(),
    {
        proof {
            use_type_invariant(&n);
        }
        n.0 as u64
    }
}

impl vstd::std_specs::convert::FromSpecImpl<NonNeg<i64>> for u64 {
    open spec fn obeys_from_spec() -> bool {
        true
    }

    open spec fn from_spec(n: NonNeg<i64>) -> u64 {
        n.number() as u64
    }
}

impl CastFrom<NonNeg<i64>> for usize {
    open spec fn representable(from: NonNeg<i64>) -> bool {
        from.number() <= usize::MAX
    }

    fn cast_from(from: NonNeg<i64>) -> usize {
        u64_to_usize(u64::from(from))
    }
}

impl NonNegError {
    /// What the error says.
    pub fn message(&self) -> (message: &'static str)
        ensures
            message@ == "cannot construct NonNeg from negative number"@,
    {
        "cannot construct NonNeg from negative number"
    }
}

/// A number that is reinterpreted as one of another type with as many values, and then back, is
/// the same again. The values of its own type are those from `least` on.
pub proof fn law_reinterpreted_numbers_come_back(
    count: int,
    least: int,
    from: int,
    to: int,
    back: int,
)
    requires
        count > 0,
        least <= from < least + count,
        least <= back < least + count,
        (to - from) % count == 0,
        (back - to) % count == 0,
    ensures
        back == from,
{
    vstd::arithmetic::div_mod::lemma_add_mod_noop(to - from, back - to, count);
    let distance = back - from;
    assert(distance % count == 0) by {
        vstd::arithmetic::div_mod::lemma_small_mod(0, count as nat);
    }
    vstd::arithmetic::div_mod::lemma_fundamental_div_mod(distance, count);
    let quotient = distance / count;
    assert(distance == 0) by (nonlinear_arith)
        requires
            count > 0,
            -count < distance < count,
            distance == count * quotient,
    ;
}

/// Every integer stands for itself.
pub proof fn law_integers_stand_for_themselves(
    unsigned: (u8, u16, u32, u64, u128, usize),
    signed: (i8, i16, i32, i64, i128, isize),
)
    ensures
        unsigned.0.number() == unsigned.0,
        unsigned.1.number() == unsigned.1,
        unsigned.2.number() == unsigned.2,
        unsigned.3.number() == unsigned.3,
        unsigned.4.number() == unsigned.4,
        unsigned.5.number() == unsigned.5,
        signed.0.number() == signed.0,
        signed.1.number() == signed.1,
        signed.2.number() == signed.2,
        signed.3.number() == signed.3,
        signed.4.number() == signed.4,
        signed.5.number() == signed.5,
{
}

/// The greatest number of each type with one.
pub proof fn law_greatest_numbers()
    ensures
        <i8 as UpperBounded>::greatest() == i8::MAX,
        <i16 as UpperBounded>::greatest() == i16::MAX,
        <i32 as UpperBounded>::greatest() == i32::MAX,
        <i64 as UpperBounded>::greatest() == i64::MAX,
        <i128 as UpperBounded>::greatest() == i128::MAX,
        <isize as UpperBounded>::greatest() == isize::MAX,
{
}

} // verus!
