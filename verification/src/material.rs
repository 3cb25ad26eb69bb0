//! Surface materials: diffuse, metallic and refractive scattering.
//!
//! Scattering is a pure function of the incoming ray, the hit record and
//! the random samples handed in by the caller, so every branch carries an
//! exact contract.  Trigonometric quantities that are at most one in real
//! arithmetic are clamped to their real range after rounding, which the
//! specification mirrors.

use vstd::prelude::*;

verus! {

use crate::hitable::HitRecord;
use crate::hitable::rec_bounded;
use crate::num::BOUND;
use crate::num::SCALE;
use crate::num::clamp_spec;
use crate::num::clamp128;
use crate::num::div_floor;
use crate::num::isqrt;
use crate::num::lemma_div_mag;
use crate::num::lemma_div_range;
use crate::num::lemma_sqrt_floor_le;
use crate::num::sqrt_floor;
use crate::ray::Ray;
use crate::vec3::Vec3;
use crate::vec3::dot2;
use crate::vec3::len_of;
use crate::vec3::lemma_prod_bound2;

/// A surface's scattering behaviour.
#[derive(Clone, Copy, Debug, PartialEq, Eq, Structural)]
pub enum Material {
    /// Diffuse: scatters towards the normal plus a random point in the
    /// unit ball, attenuated by `albedo`.
    Lambertian { albedo: Vec3 },
    /// Specular: reflects, perturbed by `fuzz` times a random point in the
    /// unit ball; absorbs rays that would enter the surface.
    Metal { albedo: Vec3, fuzz: i64 },
    /// Refractive: bends or reflects by Snell's law and the Schlick
    /// approximation; never absorbs.
    Dielectric { ior: i64 },
}

/// The outcome of a scatter event: either absorption, or an attenuation
/// color together with the outgoing ray.
#[derive(Clone, Copy, Debug, PartialEq, Eq, Structural)]
pub struct Scatter {
    pub absorbed: bool,
    pub attenuation: Vec3,
    pub ray: Ray,
}

/// The fixed-point rounding of `v - 2 (v . n) n`, as `Vec3::reflect`
/// computes it.
pub open spec fn reflect_of(v: Vec3, n: Vec3) -> Vec3 {
    Vec3 {
        x: (v.x - 2 * dot2(v, n) * n.x / (SCALE as int * SCALE as int)) as i64,
        y: (v.y - 2 * dot2(v, n) * n.y / (SCALE as int * SCALE as int)) as i64,
        z: (v.z - 2 * dot2(v, n) * n.z / (SCALE as int * SCALE as int)) as i64,
    }
}

/// The unit vector of `v`, as `Vec3::normalize` computes it.
pub open spec fn unit_of(v: Vec3) -> Vec3 {
    Vec3 {
        x: (v.x * SCALE / len_of(v)) as i64,
        y: (v.y * SCALE / len_of(v)) as i64,
        z: (v.z * SCALE / len_of(v)) as i64,
    }
}

/// A diffuse bounce: the normal plus a point in the unit ball.
pub open spec fn lambertian_dir(n: Vec3, sample: Vec3) -> Vec3 {
    Vec3 { x: (n.x + sample.x) as i64, y: (n.y + sample.y) as i64, z: (n.z + sample.z) as i64 }
}

/// A metallic bounce: the reflection perturbed by `fuzz` times a point in
/// the unit ball.
pub open spec fn metal_dir(v: Vec3, n: Vec3, fuzz: i64, sample: Vec3) -> Vec3 {
    let r = reflect_of(v, n);
    Vec3 {
        x: (r.x + fuzz * sample.x / (SCALE as int)) as i64,
        y: (r.y + fuzz * sample.y / (SCALE as int)) as i64,
        z: (r.z + fuzz * sample.z / (SCALE as int)) as i64,
    }
}

/// A metallic bounce is absorbed when the perturbed reflection points into
/// the surface, or strays out of numeric range.
pub open spec fn metal_absorbed(v: Vec3, n: Vec3, fuzz: i64, sample: Vec3) -> bool {
    !metal_dir(v, n, fuzz, sample).wf() || dot2(metal_dir(v, n, fuzz, sample), n) <= 0
}

/// The cosine of the angle between the unit incoming direction and the
/// outward normal, clamped to its real range.
pub open spec fn snell_dt(uv: Vec3, outward: Vec3) -> int {
    clamp_spec(dot2(uv, outward) / (SCALE as int), -2 * SCALE, 2 * SCALE)
}

/// The refraction discriminant `1 - ni^2 (1 - dt^2)`, scaled twice;
/// positive exactly when refraction is geometrically possible.
pub open spec fn refract_disc(uv: Vec3, outward: Vec3, ni: int) -> int {
    let dt = snell_dt(uv, outward);
    SCALE as int * SCALE as int - ni * ni * (SCALE as int * SCALE as int - dt * dt) / (SCALE as int
        * SCALE as int)
}

/// The refracted direction `ni (uv - n dt) - n sqrt(disc)`, rounded.
pub open spec fn refract_dir_of(uv: Vec3, outward: Vec3, ni: int) -> Vec3 {
    let dt = snell_dt(uv, outward);
    let sq = if refract_disc(uv, outward, ni) > 0 {
        clamp_spec(sqrt_floor(refract_disc(uv, outward, ni) as nat) as int, 0, 2 * SCALE)
    } else {
        0
    };
    Vec3 {
        x: (ni * (uv.x - outward.x * dt / (SCALE as int)) / (SCALE as int) - outward.x * sq / (
        SCALE as int)) as i64,
        y: (ni * (uv.y - outward.y * dt / (SCALE as int)) / (SCALE as int) - outward.y * sq / (
        SCALE as int)) as i64,
        z: (ni * (uv.z - outward.z * dt / (SCALE as int)) / (SCALE as int) - outward.z * sq / (
        SCALE as int)) as i64,
    }
}

/// The Schlick reflectance `r0 + (1 - r0)(1 - cos)^5`, rounded at each
/// step.
pub open spec fn schlick_of(cosine: int, ior: int) -> int {
    let r0 = (ior - SCALE) * (ior - SCALE) * SCALE / ((ior + SCALE) * (ior + SCALE));
    let omc = clamp_spec(SCALE - cosine, 0, 2 * SCALE);
    let p2 = omc * omc / (SCALE as int);
    let p4 = p2 * p2 / (SCALE as int);
    let p5 = p4 * omc / (SCALE as int);
    r0 + (SCALE - r0) * p5 / (SCALE as int)
}

/// The whole dielectric scatter: pick the side being entered, test whether
/// refraction is possible, and choose reflection with the Schlick
/// probability against the caller's draw.
pub open spec fn dielectric_scatter(ior: i64, ray: Ray, rec: HitRecord, draw: i64) -> Scatter {
    let uv = unit_of(ray.direction);
    let dtr = dot2(uv, rec.n);
    let outward = if dtr > 0 {
        Vec3 { x: (-rec.n.x) as i64, y: (-rec.n.y) as i64, z: (-rec.n.z) as i64 }
    } else {
        rec.n
    };
    let ni = if dtr > 0 {
        ior as int
    } else {
        SCALE as int * SCALE as int / ior as int
    };
    let cosine = if dtr > 0 {
        clamp_spec(ior * dtr / (SCALE as int * SCALE as int), -2 * SCALE, 2 * SCALE)
    } else {
        clamp_spec(-dtr / (SCALE as int), -2 * SCALE, 2 * SCALE)
    };
    let prob = if refract_disc(uv, outward, ni) > 0 {
        schlick_of(cosine, ior as int)
    } else {
        SCALE as int
    };
    let dir = if draw < prob {
        reflect_of(uv, rec.n)
    } else {
        refract_dir_of(uv, outward, ni)
    };
    Scatter {
        absorbed: false,
        attenuation: Vec3 { x: SCALE, y: SCALE, z: SCALE },
        ray: Ray { origin: rec.p, direction: dir },
    }
}

/// What scattering returns for each material, ray, hit and random input.
pub open spec fn scatter_spec(m: Material, ray: Ray, rec: HitRecord, sample: Vec3, draw: i64) -> Scatter {
    match m {
        Material::Lambertian { albedo } => Scatter {
            absorbed: false,
            attenuation: albedo,
            ray: Ray { origin: rec.p, direction: lambertian_dir(rec.n, sample) },
        },
        Material::Metal { albedo, fuzz } => Scatter {
            absorbed: metal_absorbed(ray.direction, rec.n, fuzz, sample),
            attenuation: albedo,
            ray: Ray { origin: rec.p, direction: metal_dir(ray.direction, rec.n, fuzz, sample) },
        },
        Material::Dielectric { ior } => dielectric_scatter(ior, ray, rec, draw),
    }
}

impl Material {
    /// Color channels within one unit, fuzz within one unit, and a
    /// refractive index within three orders of magnitude of one.
    pub open spec fn wf(self) -> bool {
        match self {
            Material::Lambertian { albedo } => {
                &&& 0 <= albedo.x <= SCALE
                &&& 0 <= albedo.y <= SCALE
                &&& 0 <= albedo.z <= SCALE
            },
            Material::Metal { albedo, fuzz } => {
                &&& 0 <= albedo.x <= SCALE
                &&& 0 <= albedo.y <= SCALE
                &&& 0 <= albedo.z <= SCALE
                &&& 0 <= fuzz <= SCALE
            },
            Material::Dielectric { ior } => SCALE / 1000 <= ior <= 1000 * SCALE,
        }
    }

    pub fn lambertian(albedo: Vec3) -> (m: Material)
        ensures
            m == (Material::Lambertian { albedo }),
    {
        Material::Lambertian { albedo }
    }

    pub fn metal(albedo: Vec3, fuzz: i64) -> (m: Material)
        ensures
            m == (Material::Metal { albedo, fuzz }),
    {
        Material::Metal { albedo, fuzz }
    }

    pub fn dielectric(ior: i64) -> (m: Material)
        ensures
            m == (Material::Dielectric { ior }),
    {
        Material::Dielectric { ior }
    }

    /// Scatters an incoming ray at a hit point.  `sample` is a point in
    /// the unit ball and `draw` a uniform draw in `[0, SCALE)`; both come
    /// from the caller's generator, so the result is pinned exactly.
    pub fn scatter(&self, ray: &Ray, rec: &HitRecord, sample: Vec3, draw: i64) -> (s: Scatter)
        requires
            self.wf(),
            ray.wf(),
            rec_bounded(*rec),
            dot2(ray.direction, ray.direction) > 0,
            -SCALE <= sample.x <= SCALE,
            -SCALE <= sample.y <= SCALE,
            -SCALE <= sample.z <= SCALE,
        ensures
            s == scatter_spec(*self, *ray, *rec, sample, draw),
            0 <= s.attenuation.x <= SCALE,
            0 <= s.attenuation.y <= SCALE,
            0 <= s.attenuation.z <= SCALE,
            s.ray.origin == rec.p,
            !s.absorbed && !(*self is Dielectric) ==> s.ray.direction.wf(),
    {
        match self {
            Material::Lambertian { albedo } => {
                let dir = rec.n.add(sample);
                Scatter {
                    absorbed: false,
                    attenuation: *albedo,
                    ray: Ray { origin: rec.p, direction: dir },
                }
            },
            Material::Metal { albedo, fuzz } => {
                let refl = ray.direction.reflect(rec.n);
                let pert = refl.add(sample.scale(*fuzz));
                let in_range = -BOUND <= pert.x && pert.x <= BOUND && -BOUND <= pert.y && pert.y
                    <= BOUND && -BOUND <= pert.z && pert.z <= BOUND;
                let absorbed = if in_range {
                    pert.dot(rec.n) <= 0
                } else {
                    true
                };
                Scatter {
                    absorbed,
                    attenuation: *albedo,
                    ray: Ray { origin: rec.p, direction: pert },
                }
            },
            Material::Dielectric { ior } => {
                let uv = ray.direction.normalize();
                let dtr = uv.dot(rec.n);
                proof {
                    lemma_prod_bound2(uv.x as int, rec.n.x as int, 2 * SCALE as int, 2 * SCALE as int);
                    lemma_prod_bound2(uv.y as int, rec.n.y as int, 2 * SCALE as int, 2 * SCALE as int);
                    lemma_prod_bound2(uv.z as int, rec.n.z as int, 2 * SCALE as int, 2 * SCALE as int);
                }
                let outward: Vec3 = if dtr > 0 {
                    rec.n.neg()
                } else {
                    rec.n
                };
                let ni: i64 = if dtr > 0 {
                    *ior
                } else {
                    proof {
                        lemma_inverse_index_bound(*ior);
                    }
                    div_floor((SCALE as i128) * (SCALE as i128), *ior as i128) as i64
                };
                let cosine: i64 = if dtr > 0 {
                    proof {
                        lemma_prod_bound2(*ior as int, dtr as int, 1000 * SCALE as int, 12 * (
                        SCALE as int * SCALE as int));
                    }
                    clamp128(
                        div_floor((*ior as i128) * (dtr as i128), (SCALE as i128) * (SCALE as i128)),
                        -2 * SCALE,
                        2 * SCALE,
                    )
                } else {
                    clamp128(div_floor(-(dtr as i128), SCALE as i128), -2 * SCALE, 2 * SCALE)
                };
                let disc = refraction_disc(uv, outward, ni);
                let prob: i64 = if disc > 0 {
                    schlick(cosine, *ior)
                } else {
                    SCALE
                };
                let dir: Vec3 = if draw < prob {
                    uv.reflect(rec.n)
                } else {
                    refracted_dir(uv, outward, ni)
                };
                Scatter {
                    absorbed: false,
                    attenuation: Vec3 { x: SCALE, y: SCALE, z: SCALE },
                    ray: Ray { origin: rec.p, direction: dir },
                }
            },
        }
    }
}

/// The refraction discriminant, computed exactly as `refract_disc` states.
fn refraction_disc(uv: Vec3, outward: Vec3, ni: i64) -> (d: i128)
    requires
        -2 * SCALE <= uv.x <= 2 * SCALE,
        -2 * SCALE <= uv.y <= 2 * SCALE,
        -2 * SCALE <= uv.z <= 2 * SCALE,
        -2 * SCALE <= outward.x <= 2 * SCALE,
        -2 * SCALE <= outward.y <= 2 * SCALE,
        -2 * SCALE <= outward.z <= 2 * SCALE,
        0 <= ni <= 1000 * SCALE,
    ensures
        d == refract_disc(uv, outward, ni as int),
        d <= 0x5000000000000000,
{
    let dt = snell_cos(uv, outward);
    proof {
        lemma_prod_bound2(dt as int, dt as int, 2 * SCALE as int, 2 * SCALE as int);
        assert(dt as int * dt as int >= 0) by (nonlinear_arith);
        lemma_prod_bound2(ni as int, ni as int, 1000 * SCALE as int, 1000 * SCALE as int);
        assert(ni as int * ni as int >= 0) by (nonlinear_arith);
        assert(2 * SCALE as int * (2 * SCALE as int) == 4000000000000 && 1000 * SCALE as int * (1000
            * SCALE as int) == 0xde0b6b3a7640000 && 5 * (SCALE as int * SCALE as int)
            == 5000000000000 && SCALE as int * SCALE as int == 1000000000000) by (nonlinear_arith)
            requires
                SCALE == 1000000i64,
        ;
        assert(2 * SCALE as int * (2 * SCALE as int) <= 5 * (SCALE as int * SCALE as int))
            by (nonlinear_arith)
            requires
                SCALE == 1000000i64,
        ;
        lemma_prod_bound2(
            ni as int * ni as int,
            SCALE as int * SCALE as int - dt as int * dt as int,
            1000 * SCALE as int * (1000 * SCALE as int),
            5 * (SCALE as int * SCALE as int),
        );
        assert(1000 * SCALE as int * (1000 * SCALE as int) * (5 * (SCALE as int * SCALE as int))
            == 5000000 * (SCALE as int * SCALE as int) * (SCALE as int * SCALE as int) && 5000000
            * (SCALE as int * SCALE as int) * (SCALE as int * SCALE as int)
            == 0x3f1bdf10116048a59340000000 && 5000000 * (SCALE as int * SCALE as int)
            == 5000000000000000000) by (nonlinear_arith)
            requires
                SCALE == 1000000i64,
        ;
        lemma_div_mag(
            ni as int * ni as int * (SCALE as int * SCALE as int - dt as int * dt as int),
            SCALE as int * SCALE as int,
            5000000 * (SCALE as int * SCALE as int),
        );
        assert(SCALE as int * SCALE as int + 5000000 * (SCALE as int * SCALE as int)
            <= 0x5000000000000000) by (nonlinear_arith)
            requires
                SCALE == 1000000i64,
        ;
    }
    let num: i128 = (ni as i128) * (ni as i128) * ((SCALE as i128) * (SCALE as i128) - (dt as i128)
        * (dt as i128));
    (SCALE as i128) * (SCALE as i128) - div_floor(num, (SCALE as i128) * (SCALE as i128))
}

/// The clamped cosine between the unit direction and the outward normal.
fn snell_cos(uv: Vec3, outward: Vec3) -> (dt: i64)
    requires
        -2 * SCALE <= uv.x <= 2 * SCALE,
        -2 * SCALE <= uv.y <= 2 * SCALE,
        -2 * SCALE <= uv.z <= 2 * SCALE,
        -2 * SCALE <= outward.x <= 2 * SCALE,
        -2 * SCALE <= outward.y <= 2 * SCALE,
        -2 * SCALE <= outward.z <= 2 * SCALE,
    ensures
        dt == snell_dt(uv, outward),
        -2 * SCALE <= dt <= 2 * SCALE,
{
    proof {
        lemma_prod_bound2(uv.x as int, outward.x as int, 2 * SCALE as int, 2 * SCALE as int);
        lemma_prod_bound2(uv.y as int, outward.y as int, 2 * SCALE as int, 2 * SCALE as int);
        lemma_prod_bound2(uv.z as int, outward.z as int, 2 * SCALE as int, 2 * SCALE as int);
        assert(2 * SCALE as int * (2 * SCALE as int) == 4000000000000) by (nonlinear_arith)
            requires
                SCALE == 1000000i64,
        ;
    }
    let raw: i128 = (uv.x as i128) * (outward.x as i128) + (uv.y as i128) * (outward.y as i128) + (
    uv.z as i128) * (outward.z as i128);
    clamp128(div_floor(raw, SCALE as i128), -2 * SCALE, 2 * SCALE)
}

/// The refracted direction, computed exactly as `refract_dir_of` states.
fn refracted_dir(uv: Vec3, outward: Vec3, ni: i64) -> (v: Vec3)
    requires
        -2 * SCALE <= uv.x <= 2 * SCALE,
        -2 * SCALE <= uv.y <= 2 * SCALE,
        -2 * SCALE <= uv.z <= 2 * SCALE,
        -2 * SCALE <= outward.x <= 2 * SCALE,
        -2 * SCALE <= outward.y <= 2 * SCALE,
        -2 * SCALE <= outward.z <= 2 * SCALE,
        0 <= ni <= 1000 * SCALE,
    ensures
        v == refract_dir_of(uv, outward, ni as int),
{
    let dt = snell_cos(uv, outward);
    let disc = refraction_disc(uv, outward, ni);
    let sq: i64 = if disc > 0 {
        proof {
            lemma_sqrt_root_small(disc as int);
        }
        clamp128(isqrt(disc as u128) as i128, 0, 2 * SCALE)
    } else {
        0
    };
    let x = refract_component(uv.x, outward.x, dt, ni, sq);
    let y = refract_component(uv.y, outward.y, dt, ni, sq);
    let z = refract_component(uv.z, outward.z, dt, ni, sq);
    Vec3 { x, y, z }
}

/// One component of the refracted direction.
fn refract_component(u: i64, o: i64, dt: i64, ni: i64, sq: i64) -> (r: i64)
    requires
        -2 * SCALE <= u <= 2 * SCALE,
        -2 * SCALE <= o <= 2 * SCALE,
        -2 * SCALE <= dt <= 2 * SCALE,
        0 <= ni <= 1000 * SCALE,
        0 <= sq <= 2 * SCALE,
    ensures
        r == ni * (u - o * dt / (SCALE as int)) / (SCALE as int) - o * sq / (SCALE as int),
{
    proof {
        lemma_prod_bound2(o as int, dt as int, 2 * SCALE as int, 2 * SCALE as int);
        assert(2 * SCALE as int * (2 * SCALE as int) == 4000000000000 && 4 * SCALE as int
            * SCALE as int == 4000000000000) by (nonlinear_arith)
            requires
                SCALE == 1000000i64,
        ;
        lemma_div_mag(o as int * dt as int, SCALE as int, 4 * SCALE as int);
        lemma_prod_bound2(
            ni as int,
            u - o as int * dt as int / (SCALE as int),
            1000 * SCALE as int,
            6 * SCALE as int,
        );
        assert(1000 * SCALE as int * (6 * SCALE as int) == 6000000000000000 && 6000 * SCALE as int
            * SCALE as int == 6000000000000000) by (nonlinear_arith)
            requires
                SCALE == 1000000i64,
        ;
        lemma_div_mag(
            ni as int * (u - o as int * dt as int / (SCALE as int)),
            SCALE as int,
            6000 * SCALE as int,
        );
        lemma_prod_bound2(o as int, sq as int, 2 * SCALE as int, 2 * SCALE as int);
        assert(4 * SCALE as int * SCALE as int == 4000000000000) by (nonlinear_arith)
            requires
                SCALE == 1000000i64,
        ;
        lemma_div_mag(o as int * sq as int, SCALE as int, 4 * SCALE as int);
    }
    let t1: i128 = div_floor((o as i128) * (dt as i128), SCALE as i128);
    let t2: i128 = (u as i128) - t1;
    let t3: i128 = div_floor((ni as i128) * t2, SCALE as i128);
    let t4: i128 = div_floor((o as i128) * (sq as i128), SCALE as i128);
    (t3 - t4) as i64
}

/// The Schlick reflectance, computed exactly as `schlick_of` states.
fn schlick(cosine: i64, ior: i64) -> (p: i64)
    requires
        -2 * SCALE <= cosine <= 2 * SCALE,
        SCALE / 1000 <= ior <= 1000 * SCALE,
    ensures
        p == schlick_of(cosine as int, ior as int),
        0 <= p,
{
    proof {
        lemma_schlick_bounds(cosine as int, ior as int);
    }
    let r0n: i128 = ((ior as i128) - (SCALE as i128)) * ((ior as i128) - (SCALE as i128)) * (
    SCALE as i128);
    let r0d: i128 = ((ior as i128) + (SCALE as i128)) * ((ior as i128) + (SCALE as i128));
    let r0: i128 = div_floor(r0n, r0d);
    let omc: i64 = clamp128((SCALE as i128) - (cosine as i128), 0, 2 * SCALE);
    proof {
        lemma_prod_bound2(omc as int, omc as int, 2 * SCALE as int, 2 * SCALE as int);
        assert(2 * SCALE as int * (2 * SCALE as int) == 4000000000000) by (nonlinear_arith)
            requires
                SCALE == 1000000i64,
        ;
    }
    let p2: i128 = div_floor((omc as i128) * (omc as i128), SCALE as i128);
    proof {
        lemma_prod_bound2(p2 as int, p2 as int, 4 * SCALE as int, 4 * SCALE as int);
        assert(4 * SCALE as int * (4 * SCALE as int) == 16000000000000) by (nonlinear_arith)
            requires
                SCALE == 1000000i64,
        ;
    }
    let p4: i128 = div_floor(p2 * p2, SCALE as i128);
    proof {
        lemma_prod_bound2(p4 as int, omc as int, 16 * SCALE as int, 2 * SCALE as int);
        assert(16 * SCALE as int * (2 * SCALE as int) == 32000000000000) by (nonlinear_arith)
            requires
                SCALE == 1000000i64,
        ;
    }
    let p5: i128 = div_floor(p4 * (omc as i128), SCALE as i128);
    proof {
        lemma_prod_bound2((SCALE as int) - (r0 as int), p5 as int, SCALE as int, 32 * SCALE as int);
        assert(SCALE as int * (32 * SCALE as int) == 32000000000000) by (nonlinear_arith)
            requires
                SCALE == 1000000i64,
        ;
    }
    let tail: i128 = div_floor(((SCALE as i128) - r0) * p5, SCALE as i128);
    (r0 + tail) as i64
}

/// Bounds for each intermediate of the Schlick computation.
proof fn lemma_schlick_bounds(cosine: int, ior: int)
    requires
        -2 * SCALE <= cosine <= 2 * SCALE,
        SCALE / 1000 <= ior <= 1000 * SCALE,
    ensures
        0 <= (ior - SCALE) * (ior - SCALE) <= 0x10000000000000000,
        0 <= (ior - SCALE) * (ior - SCALE) * SCALE <= 0x10000000000000000000000,
        0 < (ior + SCALE) * (ior + SCALE) <= 0x10000000000000000,
        0 <= (ior - SCALE) * (ior - SCALE) * SCALE / ((ior + SCALE) * (ior + SCALE)) <= SCALE,
        ({
            let r0 = (ior - SCALE) * (ior - SCALE) * SCALE / ((ior + SCALE) * (ior + SCALE));
            let omc = clamp_spec(SCALE as int - cosine, 0, 2 * SCALE as int);
            let p2 = omc * omc / (SCALE as int);
            let p4 = p2 * p2 / (SCALE as int);
            let p5 = p4 * omc / (SCALE as int);
            0 <= p2 <= 4 * SCALE && 0 <= p4 <= 16 * SCALE && 0 <= p5 <= 32 * SCALE && 0 <= (SCALE
                - r0) * p5 <= 32 * (SCALE as int * SCALE as int) && 0 <= (SCALE - r0) * p5 / (
            SCALE as int) <= 32 * SCALE
        }),
{
    let s = SCALE as int;
    assert((ior - s) * (ior - s) >= 0 && (ior + s) * (ior + s) >= ior + s && (ior - s) * (ior - s)
        <= (ior + s) * (ior + s) && (ior - s) * (ior - s) <= 0x10000000000000000 && (ior + s) * (ior
        + s) <= 0x10000000000000000 && (ior - s) * (ior - s) * s <= 0x10000000000000000000000 && (
    ior - s) * (ior - s) * s >= 0) by (nonlinear_arith)
        requires
            1000 <= ior <= 1000 * s,
            s == 1000000,
    ;
    let r0n = (ior - s) * (ior - s) * s;
    let r0d = (ior + s) * (ior + s);
    assert(r0n <= s * r0d) by (nonlinear_arith)
        requires
            (ior - s) * (ior - s) <= r0d,
            r0n == (ior - s) * (ior - s) * s,
            s >= 0,
    ;
    lemma_div_range(r0n, r0d);
    lemma_div_mag(r0n, r0d, s);
    let r0 = r0n / r0d;
    let omc = clamp_spec(s - cosine, 0, 2 * s);
    assert(0 <= omc * omc && omc * omc <= 2 * s * (2 * s) && 2 * s * (2 * s) <= 4 * s * s)
        by (nonlinear_arith)
        requires
            0 <= omc <= 2 * s,
            s == 1000000,
    ;
    lemma_div_range(omc * omc, s);
    lemma_div_mag(omc * omc, s, 4 * s);
    let p2 = omc * omc / s;
    assert(0 <= p2 * p2 && p2 * p2 <= 4 * s * (4 * s) && 4 * s * (4 * s) <= 16 * s * s)
        by (nonlinear_arith)
        requires
            0 <= p2 <= 4 * s,
            s == 1000000,
    ;
    lemma_div_range(p2 * p2, s);
    lemma_div_mag(p2 * p2, s, 16 * s);
    let p4 = p2 * p2 / s;
    assert(0 <= p4 * omc && p4 * omc <= 32 * s * s) by (nonlinear_arith)
        requires
            0 <= p4 <= 16 * s,
            0 <= omc <= 2 * s,
            s == 1000000,
    ;
    lemma_div_range(p4 * omc, s);
    lemma_div_mag(p4 * omc, s, 32 * s);
    let p5 = p4 * omc / s;
    assert(0 <= (s - r0) * p5 && (s - r0) * p5 <= 32 * (s * s) && 32 * (s * s) <= 32 * s * s)
        by (nonlinear_arith)
        requires
            0 <= s - r0 <= s,
            0 <= p5 <= 32 * s,
            s == 1000000,
    ;
    lemma_div_range((s - r0) * p5, s);
    lemma_div_mag((s - r0) * p5, s, 32 * s);
}

/// A ray striking the surface head on (the cosine against the outward
/// normal is exactly minus one) always admits refraction: the refraction
/// discriminant equals one, whatever the relative index.
pub proof fn lemma_perpendicular_refracts(uv: Vec3, outward: Vec3, ni: int)
    requires
        dot2(uv, outward) == -(SCALE as int * SCALE as int),
    ensures
        refract_disc(uv, outward, ni) == SCALE as int * SCALE as int,
        refract_disc(uv, outward, ni) > 0,
{
    let s = SCALE as int;
    assert(-(s * s) / s == -s && s * s == 1000000000000 && -s >= -2 * s) by (nonlinear_arith)
        requires
            s == 1000000,
    ;
    assert(snell_dt(uv, outward) == -s);
    assert(s * s - (-s) * (-s) == 0) by (nonlinear_arith);
    assert(ni * ni * 0 == 0) by (nonlinear_arith);
    assert(0int / (s * s) == 0) by (nonlinear_arith)
        requires
            s == 1000000,
    ;
}

/// The reciprocal index of an entering ray stays within the index bound.
proof fn lemma_inverse_index_bound(ior: i64)
    requires
        SCALE / 1000 <= ior <= 1000 * SCALE,
    ensures
        0 <= SCALE as int * SCALE as int / ior as int <= 1000 * SCALE,
{
    assert(SCALE as int * SCALE as int <= 1000 * SCALE as int * ior as int && 0 <= 1000
        * SCALE as int * ior as int) by (nonlinear_arith)
        requires
            ior >= SCALE / 1000,
            SCALE == 1000000i64,
    ;
    lemma_div_range(SCALE as int * SCALE as int, ior as int);
    lemma_div_mag(SCALE as int * SCALE as int, ior as int, 1000 * SCALE as int);
}

/// A positive refraction discriminant is at most a few squared scales, so
/// its root fits comfortably under the clamp threshold's square.
proof fn lemma_sqrt_root_small(disc: int)
    requires
        0 < disc <= 0x5000000000000000,
    ensures
        sqrt_floor(disc as nat) <= 0x100000000,
{
    assert(disc < (0x100000000 + 1) * (0x100000000 + 1)) by (nonlinear_arith)
        requires
            disc <= 0x5000000000000000,
    ;
    lemma_sqrt_floor_le(disc as nat, 0x100000000 as nat);
}

} // verus!
