//! A verified ray tracer over fixed-point arithmetic.
//!
//! Geometry, materials and the shading integrator work on scaled integers
//! (micro-units, see [`num::SCALE`]); every operation carries an exact
//! integer contract, so the rendered image is pinned down bit for bit,
//! up to the random samples that the caller's generator supplies.

pub mod camera;
pub mod hitable;
pub mod material;
pub mod num;
pub mod point3;
pub mod ray;
pub mod render;
pub mod sample;
pub mod vec3;

use vstd::prelude::*;

verus! {

/// Packs three 8-bit channels into one `0xAARRGGBB` framebuffer word with
/// an opaque alpha byte.
pub fn to_bgra(r: u32, g: u32, b: u32) -> (px: u32)
    requires
        r <= 255,
        g <= 255,
        b <= 255,
    ensures
        px == 0xff000000u32 + r * 0x10000 + g * 0x100 + b,
{
    proof {
        assert(255u32 << 24 == 0xff000000u32) by (bit_vector);
        assert forall|x: u32, y: u32, z: u32|
            x <= 255 && y <= 255 && z <= 255 implies #[trigger] (255u32 << 24 | x << 16 | y << 8
            | z) == 0xff000000u32 + x * 0x10000 + y * 0x100 + z by {
            assert(x <= 255 && y <= 255 && z <= 255 ==> (255u32 << 24 | x << 16 | y << 8 | z)
                == 0xff000000u32 + x * 0x10000 + y * 0x100 + z) by (bit_vector);
        }
    }
    255u32 << 24 | r << 16 | g << 8 | b
}

} // verus!
