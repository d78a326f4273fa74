//! The crate's only source of randomness: a uniform draw below a bound,
//! plus the mapping from a draw to a block color.

use vstd::prelude::*;
use crate::block::BlockColor;

verus! {

/// Relies on `rand::Rng::gen_range` over the half-open range `0..n`: it
/// returns a value of that range and panics only when the range is empty,
/// which the precondition rules out. Nothing is assumed about which value
/// comes back.
#[verifier::external_body]
pub fn rand_below(n: u32) -> (r: u32)
    requires
        n >= 1,
    ensures
        r < n,
{
    rand::Rng::gen_range(&mut rand::thread_rng(), 0..n)
}

/// The number of block colors.
pub const COLOR_COUNT: u32 = 5;

/// The color assigned to each draw index.
pub open spec fn spec_color_of_index(i: int) -> BlockColor {
    if i == 0 {
        BlockColor::Red
    } else if i == 1 {
        BlockColor::Green
    } else if i == 2 {
        BlockColor::Blue
    } else if i == 3 {
        BlockColor::Yellow
    } else {
        BlockColor::Purple
    }
}

/// Map a draw index to its color.
pub fn color_of_index(i: u32) -> (c: BlockColor)
    ensures
        c == spec_color_of_index(i as int),
{
    if i == 0 {
        BlockColor::Red
    } else if i == 1 {
        BlockColor::Green
    } else if i == 2 {
        BlockColor::Blue
    } else if i == 3 {
        BlockColor::Yellow
    } else {
        BlockColor::Purple
    }
}

/// A uniformly drawn block color.
pub fn random_color() -> BlockColor {
    let i = rand_below(COLOR_COUNT);
    color_of_index(i)
}

} // verus!
