//! Arithmetic on 32-bit serial numbers.
//!
//! Sequence numbers and millisecond timestamps live on a circle of 2^32
//! values. Two of them are compared by the signed distance between them, which
//! is meaningful as long as they are less than 2^31 apart.

use vstd::prelude::*;

verus! {

/// The number of values on the circle.
pub open spec fn modulus() -> int {
    0x1_0000_0000
}

/// The signed distance from `b` to `a`: the representative of `a - b` modulo
/// 2^32 that lies in `[-2^31, 2^31)`.
pub open spec fn diff(a: u32, b: u32) -> int {
    let d = a as int - b as int;
    if d >= 0x8000_0000 {
        d - modulus()
    } else if d < -0x8000_0000 {
        d + modulus()
    } else {
        d
    }
}

/// The distance travelled going forward from `b` to `a`: the representative of
/// `a - b` modulo 2^32 that lies in `[0, 2^32)`.
pub open spec fn offset(a: u32, b: u32) -> int {
    if a >= b {
        a as int - b as int
    } else {
        a as int - b as int + modulus()
    }
}

/// The value `n` steps forward of `a`, for `0 <= n < 2^32`.
pub open spec fn advance(a: u32, n: int) -> u32 {
    if a + n >= modulus() {
        (a + n - modulus()) as u32
    } else {
        (a + n) as u32
    }
}

/// `x` kept within the range of `u32`: counters stop at the largest value
/// instead of starting over.
pub open spec fn saturate(x: int) -> u32 {
    if x > u32::MAX {
        u32::MAX
    } else if x < 0 {
        0
    } else {
        x as u32
    }
}

/// Signed distance between two serial numbers.
pub fn sub_u32(a: u32, b: u32) -> (d: i32)
    ensures
        d == diff(a, b),
{
    if a >= b {
        let w: u32 = a - b;
        if w < 0x8000_0000 {
            w as i32
        } else {
            (w as i64 - 0x1_0000_0000) as i32
        }
    } else {
        let w: u32 = b - a;
        if w <= 0x8000_0000 {
            (-(w as i64)) as i32
        } else {
            (0x1_0000_0000 - w as i64) as i32
        }
    }
}

/// Going forward by an offset and measuring the offset again gives it back.
pub proof fn lemma_offset_advance(a: u32, n: int)
    requires
        0 <= n < modulus(),
    ensures
        offset(advance(a, n), a) == n,
{
}

/// A small forward offset is the signed distance.
pub proof fn lemma_diff_is_offset(a: u32, b: u32)
    requires
        offset(a, b) < 0x8000_0000,
    ensures
        diff(a, b) == offset(a, b),
{
}

/// A number that does not lie behind another lies less than 2^31 ahead of it.
pub proof fn lemma_diff_nonnegative(a: u32, b: u32)
    requires
        diff(a, b) >= 0,
    ensures
        offset(a, b) == diff(a, b),
        offset(a, b) < 0x8000_0000,
{
}

/// The signed distance between two numbers that both lie less than 2^31 ahead
/// of a common base is the difference of their offsets from it.
pub proof fn lemma_diff_of_offsets(a: u32, b: u32, base: u32)
    requires
        offset(a, base) < 0x8000_0000,
        offset(b, base) < 0x8000_0000,
    ensures
        diff(a, b) == offset(a, base) - offset(b, base),
{
}

/// Moving the base forward by `offset(c, base)` shortens every offset that is
/// at least as long by that much.
pub proof fn lemma_offset_rebase(a: u32, c: u32, base: u32)
    requires
        offset(c, base) <= offset(a, base),
    ensures
        offset(a, c) == offset(a, base) - offset(c, base),
{
}

} // verus!
