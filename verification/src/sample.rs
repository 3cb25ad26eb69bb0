//! Random sampling: a seedable generator behind trusted wrappers, and the
//! verified rejection-sampling helpers built on it.
//!
//! Every point returned by the helpers provably lies strictly inside the
//! unit ball (or unit disk); which point comes back depends on the
//! generator's state, so no more is promised.

use vstd::prelude::*;

verus! {

use crate::num::SCALE;
use crate::vec3::Vec3;
use crate::vec3::dot2;
use crate::vec3::lemma_prod_bound2;

#[verifier::external_type_specification]
#[verifier::external_body]
pub struct ExStdRng(rand::rngs::StdRng);

/// Relies on rand's `Rng::gen_range` on `i64`: returns a value drawn from
/// the half-open range `[lo, hi)`, which is all its documentation promises.
#[verifier::external_body]
pub(crate) fn rand_range(rng: &mut rand::rngs::StdRng, lo: i64, hi: i64) -> (r: i64)
    requires
        lo < hi,
    ensures
        lo <= r < hi,
{
    rand::Rng::gen_range(rng, lo..hi)
}

/// How many rejection-sampling attempts are made before falling back to
/// the origin, which guards against a pathological generator.
pub const MAX_SAMPLE_TRIES: usize = 64;

/// A point strictly inside the unit ball, by rejection sampling.
pub fn random_in_unit_sphere(rng: &mut rand::rngs::StdRng) -> (v: Vec3)
    ensures
        dot2(v, v) < SCALE as int * SCALE as int,
        -SCALE <= v.x <= SCALE,
        -SCALE <= v.y <= SCALE,
        -SCALE <= v.z <= SCALE,
{
    let mut i: usize = 0;
    while i < MAX_SAMPLE_TRIES
        invariant
            true,
        decreases MAX_SAMPLE_TRIES - i,
    {
        let x = rand_range(rng, -SCALE + 1, SCALE);
        let y = rand_range(rng, -SCALE + 1, SCALE);
        let z = rand_range(rng, -SCALE + 1, SCALE);
        let p = Vec3 { x, y, z };
        proof {
            lemma_prod_bound2(x as int, x as int, SCALE as int, SCALE as int);
            lemma_prod_bound2(y as int, y as int, SCALE as int, SCALE as int);
            lemma_prod_bound2(z as int, z as int, SCALE as int, SCALE as int);
        }
        let sq: i128 = (x as i128) * (x as i128) + (y as i128) * (y as i128) + (z as i128) * (
        z as i128);
        if sq < (SCALE as i128) * (SCALE as i128) {
            return p;
        }
        i = i + 1;
    }
    proof {
        lemma_prod_bound2(0, 0, SCALE as int, SCALE as int);
    }
    Vec3 { x: 0, y: 0, z: 0 }
}

/// A point strictly inside the unit disk in the `z = 0` plane, by
/// rejection sampling.
pub fn random_in_unit_disk(rng: &mut rand::rngs::StdRng) -> (v: Vec3)
    ensures
        dot2(v, v) < SCALE as int * SCALE as int,
        -SCALE <= v.x <= SCALE,
        -SCALE <= v.y <= SCALE,
        v.z == 0,
{
    let mut i: usize = 0;
    while i < MAX_SAMPLE_TRIES
        invariant
            true,
        decreases MAX_SAMPLE_TRIES - i,
    {
        let x = rand_range(rng, -SCALE + 1, SCALE);
        let y = rand_range(rng, -SCALE + 1, SCALE);
        let p = Vec3 { x, y, z: 0 };
        proof {
            lemma_prod_bound2(x as int, x as int, SCALE as int, SCALE as int);
            lemma_prod_bound2(y as int, y as int, SCALE as int, SCALE as int);
        }
        let sq: i128 = (x as i128) * (x as i128) + (y as i128) * (y as i128);
        if sq < (SCALE as i128) * (SCALE as i128) {
            return p;
        }
        i = i + 1;
    }
    Vec3 { x: 0, y: 0, z: 0 }
}

} // verus!
