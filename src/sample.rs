use vstd::prelude::*;

use crate::bitarea::Bitarea;
use crate::layout::valid_shape;

verus! {

/// Relies on `rand::random::<u64>`: a word drawn from the thread-local
/// generator. Nothing is known of its value.
#[verifier::external_body]
fn random_word() -> u64 {
    rand::random::<u64>()
}

/// A side drawn for a random shape, limited to 64.
pub open spec fn clamp_side(draw: u64) -> u64 {
    if draw > 64 {
        64
    } else {
        draw
    }
}

/// Decides one attempt at a random shape from two drawn sides: each side is
/// limited to 64, and the shape is taken only when it fits in one word.
/// Otherwise the caller draws again.
pub fn shape_from_draws(width_draw: u64, height_draw: u64) -> (r: Option<(u32, u32)>)
    ensures
        r is Some <==> valid_shape(
            clamp_side(width_draw) as int,
            clamp_side(height_draw) as int,
        ),
        r matches Some(shape) ==> shape.0 == clamp_side(width_draw) && shape.1 == clamp_side(
            height_draw,
        ),
{
    let w: u64 = if width_draw > 64 {
        64
    } else {
        width_draw
    };
    let h: u64 = if height_draw > 64 {
        64
    } else {
        height_draw
    };
    if w == 0 || h == 0 {
        return None;
    }
    assert(w * h <= 64 * 64) by (nonlinear_arith)
        requires
            w <= 64,
            h <= 64,
    ;
    if w * h <= 64 {
        Some((w as u32, h as u32))
    } else {
        None
    }
}

impl Bitarea {
    /// A grid of the given shape whose word, unused bits included, is drawn
    /// at random.
    pub fn rand(width: u32, height: u32) -> (r: Bitarea)
        requires
            valid_shape(width as int, height as int),
        ensures
            r.wf(),
            r.width() == width,
            r.height() == height,
    {
        Bitarea::from_bits(width, height, random_word())
    }
}

} // verus!
