//! The thin-lens camera: an orthonormal basis built from the caller's
//! framing, and the per-sample ray generation with lens jitter.
//!
//! The vertical field of view enters as the fixed-point tangent of half
//! the angle, so the whole construction stays in exact integer
//! arithmetic.  Derived viewport fields are clamped to `CAM_BOUND`, which
//! keeps every ray direction inside the global coordinate bound; the
//! clamp is part of the stated contract.

use vstd::prelude::*;

verus! {

use crate::num::SCALE;
use crate::num::clamp_spec;
use crate::num::clamp128;
use crate::num::div_floor;
use crate::num::lemma_div_mag;
use crate::point3::Point3;
use crate::ray::Ray;
use crate::sample::random_in_unit_disk;
use crate::vec3::Vec3;
use crate::vec3::cross_of;
use crate::vec3::dot2;
use crate::vec3::len_of;

/// Magnitude bound on the camera's derived viewport fields.
pub const CAM_BOUND: i64 = 134217728;

/// Half the global coordinate bound: the limit on the camera's placement.
pub const EYE_BOUND: i64 = 536870912;

/// A thin-lens camera: precomputed viewport corners and basis.
#[derive(Clone, Copy, Debug, PartialEq, Eq, Structural)]
pub struct Camera {
    pub lower_left_corner: Point3,
    pub horizontal: Vec3,
    pub vertical: Vec3,
    pub origin: Point3,
    pub u: Vec3,
    pub v: Vec3,
    pub w: Vec3,
    pub lens_radius: i64,
}

/// The displacement from the target to the eye.
pub open spec fn view_dir(lookfrom: Point3, lookat: Point3) -> Vec3 {
    Vec3 {
        x: (lookfrom.x - lookat.x) as i64,
        y: (lookfrom.y - lookat.y) as i64,
        z: (lookfrom.z - lookat.z) as i64,
    }
}

/// The unit vector of `v`, component by component, as `Vec3::normalize`
/// computes it.
pub open spec fn unit_vec(v: Vec3) -> Vec3 {
    Vec3 {
        x: (v.x * SCALE / len_of(v)) as i64,
        y: (v.y * SCALE / len_of(v)) as i64,
        z: (v.z * SCALE / len_of(v)) as i64,
    }
}

/// The un-normalized screen-right vector: `normalize(vup) x w`.
pub open spec fn cam_u_raw(lookfrom: Point3, lookat: Point3, vup: Vec3) -> Vec3 {
    cross_of(unit_vec(vup), unit_vec(view_dir(lookfrom, lookat)))
}

/// One clamped component of a doubly rescaled basis product.
pub open spec fn cam_field(base: int, s1: int, c: int) -> int {
    clamp_spec(base + s1 * c / (SCALE as int), -CAM_BOUND as int, CAM_BOUND as int)
}

/// The whole camera construction: basis, viewport corner and extents.
pub open spec fn camera_spec(
    lookfrom: Point3,
    lookat: Point3,
    vup: Vec3,
    half_tan: i64,
    aspect: i64,
    aperture: i64,
    focus_dist: i64,
) -> Camera {
    let w = unit_vec(view_dir(lookfrom, lookat));
    let un = unit_vec(cam_u_raw(lookfrom, lookat, vup));
    let v = cross_of(w, un);
    let half_width = aspect * half_tan / (SCALE as int);
    let hwfd = half_width * focus_dist / (SCALE as int);
    let hhfd = half_tan * focus_dist / (SCALE as int);
    Camera {
        lower_left_corner: Point3 {
            x: clamp_spec(
                lookfrom.x - hwfd * un.x / (SCALE as int) - hhfd * v.x / (SCALE as int) - focus_dist
                    * w.x / (SCALE as int),
                -CAM_BOUND as int,
                CAM_BOUND as int,
            ) as i64,
            y: clamp_spec(
                lookfrom.y - hwfd * un.y / (SCALE as int) - hhfd * v.y / (SCALE as int) - focus_dist
                    * w.y / (SCALE as int),
                -CAM_BOUND as int,
                CAM_BOUND as int,
            ) as i64,
            z: clamp_spec(
                lookfrom.z - hwfd * un.z / (SCALE as int) - hhfd * v.z / (SCALE as int) - focus_dist
                    * w.z / (SCALE as int),
                -CAM_BOUND as int,
                CAM_BOUND as int,
            ) as i64,
        },
        horizontal: Vec3 {
            x: cam_field(0, 2 * hwfd, un.x as int) as i64,
            y: cam_field(0, 2 * hwfd, un.y as int) as i64,
            z: cam_field(0, 2 * hwfd, un.z as int) as i64,
        },
        vertical: Vec3 {
            x: cam_field(0, 2 * hhfd, v.x as int) as i64,
            y: cam_field(0, 2 * hhfd, v.y as int) as i64,
            z: cam_field(0, 2 * hhfd, v.z as int) as i64,
        },
        origin: lookfrom,
        u: un,
        v,
        w,
        lens_radius: (aperture / 2) as i64,
    }
}

impl Camera {
    /// Viewport fields within `CAM_BOUND`, the eye within `EYE_BOUND`,
    /// basis vectors near unit, and a small lens.
    pub open spec fn wf(self) -> bool {
        &&& -CAM_BOUND <= self.lower_left_corner.x <= CAM_BOUND
        &&& -CAM_BOUND <= self.lower_left_corner.y <= CAM_BOUND
        &&& -CAM_BOUND <= self.lower_left_corner.z <= CAM_BOUND
        &&& -CAM_BOUND <= self.horizontal.x <= CAM_BOUND
        &&& -CAM_BOUND <= self.horizontal.y <= CAM_BOUND
        &&& -CAM_BOUND <= self.horizontal.z <= CAM_BOUND
        &&& -CAM_BOUND <= self.vertical.x <= CAM_BOUND
        &&& -CAM_BOUND <= self.vertical.y <= CAM_BOUND
        &&& -CAM_BOUND <= self.vertical.z <= CAM_BOUND
        &&& -EYE_BOUND <= self.origin.x <= EYE_BOUND
        &&& -EYE_BOUND <= self.origin.y <= EYE_BOUND
        &&& -EYE_BOUND <= self.origin.z <= EYE_BOUND
        &&& -8 * SCALE <= self.u.x <= 8 * SCALE
        &&& -8 * SCALE <= self.u.y <= 8 * SCALE
        &&& -8 * SCALE <= self.u.z <= 8 * SCALE
        &&& -8 * SCALE <= self.v.x <= 8 * SCALE
        &&& -8 * SCALE <= self.v.y <= 8 * SCALE
        &&& -8 * SCALE <= self.v.z <= 8 * SCALE
        &&& 0 <= self.lens_radius <= 2 * SCALE
    }

    /// Builds the camera basis and viewport from the caller's framing.
    /// `half_tan` is the fixed-point tangent of half the vertical field of
    /// view.  The eye must not sit on the target, and the up vector must
    /// not be parallel to the viewing direction.
    pub fn new(
        lookfrom: Point3,
        lookat: Point3,
        vup: Vec3,
        half_tan: i64,
        aspect: i64,
        aperture: i64,
        focus_dist: i64,
    ) -> (cam: Camera)
        requires
            -EYE_BOUND <= lookfrom.x <= EYE_BOUND,
            -EYE_BOUND <= lookfrom.y <= EYE_BOUND,
            -EYE_BOUND <= lookfrom.z <= EYE_BOUND,
            -EYE_BOUND <= lookat.x <= EYE_BOUND,
            -EYE_BOUND <= lookat.y <= EYE_BOUND,
            -EYE_BOUND <= lookat.z <= EYE_BOUND,
            vup.wf(),
            dot2(vup, vup) > 0,
            dot2(view_dir(lookfrom, lookat), view_dir(lookfrom, lookat)) > 0,
            dot2(cam_u_raw(lookfrom, lookat, vup), cam_u_raw(lookfrom, lookat, vup)) > 0,
            0 < half_tan <= 4 * SCALE,
            0 < aspect <= 8 * SCALE,
            0 <= aperture <= 4 * SCALE,
            0 < focus_dist <= 16 * SCALE,
        ensures
            cam == camera_spec(lookfrom, lookat, vup, half_tan, aspect, aperture, focus_dist),
            cam.wf(),
    {
        let wd = lookfrom.sub(lookat);
        let w = wd.normalize();
        let vn = vup.normalize();
        let u0 = vn.cross(w);
        proof {
            lemma_unit_cross_bound(vn.y as int, w.z as int, vn.z as int, w.y as int);
            lemma_unit_cross_bound(vn.z as int, w.x as int, vn.x as int, w.z as int);
            lemma_unit_cross_bound(vn.x as int, w.y as int, vn.y as int, w.x as int);
        }
        let un = u0.normalize();
        let v = w.cross(un);
        proof {
            lemma_unit_cross_bound(w.y as int, un.z as int, w.z as int, un.y as int);
            lemma_unit_cross_bound(w.z as int, un.x as int, w.x as int, un.z as int);
            lemma_unit_cross_bound(w.x as int, un.y as int, w.y as int, un.x as int);
        }
        proof {
            assert(8 * SCALE as int * (4 * SCALE as int) == 32 * SCALE as int * SCALE as int
                && 32 * SCALE as int * SCALE as int == 32000000000000 && aspect as int
                * half_tan as int <= 8 * SCALE as int * (4 * SCALE as int) && aspect as int
                * half_tan as int >= 0) by (nonlinear_arith)
                requires
                    0 < aspect <= 8 * SCALE,
                    0 < half_tan <= 4 * SCALE,
                    SCALE == 1000000i64,
            ;
            lemma_div_mag(aspect as int * half_tan as int, SCALE as int, 32 * SCALE as int);
        }
        let half_width: i64 = div_floor((aspect as i128) * (half_tan as i128), SCALE as i128) as i64;
        proof {
            assert(half_width as int * focus_dist as int <= 32 * SCALE as int * (16 * SCALE as int)
                && half_width as int * focus_dist as int >= -(512 * SCALE as int * SCALE as int)
                && 32 * SCALE as int * (16 * SCALE as int) == 512 * SCALE as int * SCALE as int
                && 512 * SCALE as int * SCALE as int == 512000000000000) by (nonlinear_arith)
                requires
                    -32 * SCALE <= half_width <= 32 * SCALE,
                    0 < focus_dist <= 16 * SCALE,
                    SCALE == 1000000i64,
            ;
            lemma_div_mag(half_width as int * focus_dist as int, SCALE as int, 512 * SCALE as int);
            assert(half_tan as int * focus_dist as int <= 4 * SCALE as int * (16 * SCALE as int)
                && half_tan as int * focus_dist as int >= 0 && 4 * SCALE as int * (16 * SCALE as int)
                == 64 * SCALE as int * SCALE as int && 64 * SCALE as int * SCALE as int
                == 64000000000000) by (nonlinear_arith)
                requires
                    0 < half_tan <= 4 * SCALE,
                    0 < focus_dist <= 16 * SCALE,
                    SCALE == 1000000i64,
            ;
            lemma_div_mag(half_tan as int * focus_dist as int, SCALE as int, 64 * SCALE as int);
        }
        let hwfd: i64 = div_floor((half_width as i128) * (focus_dist as i128), SCALE as i128) as i64;
        let hhfd: i64 = div_floor((half_tan as i128) * (focus_dist as i128), SCALE as i128) as i64;
        let llc = Point3 {
            x: Self::corner_component(lookfrom.x, hwfd, un.x, hhfd, v.x, focus_dist, w.x),
            y: Self::corner_component(lookfrom.y, hwfd, un.y, hhfd, v.y, focus_dist, w.y),
            z: Self::corner_component(lookfrom.z, hwfd, un.z, hhfd, v.z, focus_dist, w.z),
        };
        let horizontal = Vec3 {
            x: Self::extent_component(2 * hwfd, un.x),
            y: Self::extent_component(2 * hwfd, un.y),
            z: Self::extent_component(2 * hwfd, un.z),
        };
        let vertical = Vec3 {
            x: Self::extent_component(2 * hhfd, v.x),
            y: Self::extent_component(2 * hhfd, v.y),
            z: Self::extent_component(2 * hhfd, v.z),
        };
        Camera {
            lower_left_corner: llc,
            horizontal,
            vertical,
            origin: lookfrom,
            u: un,
            v,
            w,
            lens_radius: aperture / 2,
        }
    }

    /// One clamped component of the lower-left viewport corner.
    fn corner_component(base: i64, hwfd: i64, uc: i64, hhfd: i64, vc: i64, fd: i64, wc: i64) -> (r:
        i64)
        requires
            -EYE_BOUND <= base <= EYE_BOUND,
            -1024 * SCALE <= hwfd <= 1024 * SCALE,
            -1024 * SCALE <= hhfd <= 1024 * SCALE,
            0 < fd <= 16 * SCALE,
            -8 * SCALE <= uc <= 8 * SCALE,
            -8 * SCALE <= vc <= 8 * SCALE,
            -8 * SCALE <= wc <= 8 * SCALE,
        ensures
            r == clamp_spec(
                base - hwfd * uc / (SCALE as int) - hhfd * vc / (SCALE as int) - fd * wc / (
                SCALE as int),
                -CAM_BOUND as int,
                CAM_BOUND as int,
            ),
    {
        proof {
            assert(hwfd as int * uc as int <= 8192 * SCALE as int * SCALE as int && hwfd as int
                * uc as int >= -(8192 * SCALE as int * SCALE as int) && hhfd as int * vc as int
                <= 8192 * SCALE as int * SCALE as int && hhfd as int * vc as int >= -(8192
                * SCALE as int * SCALE as int) && fd as int * wc as int <= 128 * SCALE as int
                * SCALE as int && fd as int * wc as int >= -(128 * SCALE as int * SCALE as int)
                && 8192 * SCALE as int * SCALE as int == 8192000000000000 && 128 * SCALE as int
                * SCALE as int == 128000000000000) by (nonlinear_arith)
                requires
                    -1024 * SCALE <= hwfd <= 1024 * SCALE,
                    -1024 * SCALE <= hhfd <= 1024 * SCALE,
                    0 < fd <= 16 * SCALE,
                    -8 * SCALE <= uc <= 8 * SCALE,
                    -8 * SCALE <= vc <= 8 * SCALE,
                    -8 * SCALE <= wc <= 8 * SCALE,
                    SCALE == 1000000i64,
            ;
            lemma_div_mag(hwfd as int * uc as int, SCALE as int, 8192 * SCALE as int);
            lemma_div_mag(hhfd as int * vc as int, SCALE as int, 8192 * SCALE as int);
            lemma_div_mag(fd as int * wc as int, SCALE as int, 128 * SCALE as int);
        }
        let t1: i128 = div_floor((hwfd as i128) * (uc as i128), SCALE as i128);
        let t2: i128 = div_floor((hhfd as i128) * (vc as i128), SCALE as i128);
        let t3: i128 = div_floor((fd as i128) * (wc as i128), SCALE as i128);
        clamp128((base as i128) - t1 - t2 - t3, -CAM_BOUND, CAM_BOUND)
    }

    /// One clamped component of the viewport extents.
    fn extent_component(s1: i64, c: i64) -> (r: i64)
        requires
            -2048 * SCALE <= s1 <= 2048 * SCALE,
            -8 * SCALE <= c <= 8 * SCALE,
        ensures
            r == cam_field(0, s1 as int, c as int),
    {
        proof {
            assert(s1 as int * c as int <= 16384 * SCALE as int * SCALE as int && s1 as int
                * c as int >= -(16384 * SCALE as int * SCALE as int) && 16384 * SCALE as int
                * SCALE as int == 16384000000000000) by (nonlinear_arith)
                requires
                    -2048 * SCALE <= s1 <= 2048 * SCALE,
                    -8 * SCALE <= c <= 8 * SCALE,
                    SCALE == 1000000i64,
            ;
            lemma_div_mag(s1 as int * c as int, SCALE as int, 16384 * SCALE as int);
        }
        clamp128(div_floor((s1 as i128) * (c as i128), SCALE as i128), -CAM_BOUND, CAM_BOUND)
    }

    /// The ray through normalized image coordinates `(s, t)`, with the
    /// given lens-disk sample.
    pub fn get_ray_with(&self, s: i64, t: i64, rd: Vec3) -> (r: Ray)
        requires
            self.wf(),
            0 <= s <= SCALE,
            0 <= t <= SCALE,
            -SCALE <= rd.x <= SCALE,
            -SCALE <= rd.y <= SCALE,
            rd.z == 0,
        ensures
            r == cam_ray(*self, s as int, t as int, rd),
            r.wf(),
    {
        proof {
            lemma_ray_bounds(*self, s as int, t as int, rd);
        }
        let ox: i64 = div_floor((rd.x as i128) * (self.lens_radius as i128), SCALE as i128) as i64;
        let oy: i64 = div_floor((rd.y as i128) * (self.lens_radius as i128), SCALE as i128) as i64;
        let offx: i64 = (div_floor((ox as i128) * (self.u.x as i128), SCALE as i128) + div_floor(
            (oy as i128) * (self.v.x as i128),
            SCALE as i128,
        )) as i64;
        let offy: i64 = (div_floor((ox as i128) * (self.u.y as i128), SCALE as i128) + div_floor(
            (oy as i128) * (self.v.y as i128),
            SCALE as i128,
        )) as i64;
        let offz: i64 = (div_floor((ox as i128) * (self.u.z as i128), SCALE as i128) + div_floor(
            (oy as i128) * (self.v.z as i128),
            SCALE as i128,
        )) as i64;
        let dx: i64 = (self.lower_left_corner.x as i128 + div_floor(
            (s as i128) * (self.horizontal.x as i128),
            SCALE as i128,
        ) + div_floor((t as i128) * (self.vertical.x as i128), SCALE as i128)
            - self.origin.x as i128 - offx as i128) as i64;
        let dy: i64 = (self.lower_left_corner.y as i128 + div_floor(
            (s as i128) * (self.horizontal.y as i128),
            SCALE as i128,
        ) + div_floor((t as i128) * (self.vertical.y as i128), SCALE as i128)
            - self.origin.y as i128 - offy as i128) as i64;
        let dz: i64 = (self.lower_left_corner.z as i128 + div_floor(
            (s as i128) * (self.horizontal.z as i128),
            SCALE as i128,
        ) + div_floor((t as i128) * (self.vertical.z as i128), SCALE as i128)
            - self.origin.z as i128 - offz as i128) as i64;
        Ray {
            origin: Point3 {
                x: self.origin.x + offx,
                y: self.origin.y + offy,
                z: self.origin.z + offz,
            },
            direction: Vec3 { x: dx, y: dy, z: dz },
        }
    }

    /// The ray through `(s, t)` with a fresh lens sample from the caller's
    /// generator.
    pub fn get_ray(&self, s: i64, t: i64, rng: &mut rand::rngs::StdRng) -> (r: Ray)
        requires
            self.wf(),
            0 <= s <= SCALE,
            0 <= t <= SCALE,
        ensures
            r.wf(),
            exists|rd: Vec3|
                dot2(rd, rd) < SCALE as int * SCALE as int && rd.z == 0 && #[trigger] cam_ray(
                    *self,
                    s as int,
                    t as int,
                    rd,
                ) == r,
    {
        let rd = random_in_unit_disk(rng);
        let r = self.get_ray_with(s, t, rd);
        proof {
            assert(cam_ray(*self, s as int, t as int, rd) == r);
        }
        r
    }
}

/// One component of the lens offset `rd.x u + rd.y v`, scaled by the lens
/// radius.
pub open spec fn lens_offset(cam: Camera, rd: Vec3, uc: int, vc: int) -> int {
    let ox = rd.x * cam.lens_radius / (SCALE as int);
    let oy = rd.y * cam.lens_radius / (SCALE as int);
    ox * uc / (SCALE as int) + oy * vc / (SCALE as int)
}

/// The ray that `get_ray_with` builds from a lens sample.
pub open spec fn cam_ray(cam: Camera, s: int, t: int, rd: Vec3) -> Ray {
    let offx = lens_offset(cam, rd, cam.u.x as int, cam.v.x as int);
    let offy = lens_offset(cam, rd, cam.u.y as int, cam.v.y as int);
    let offz = lens_offset(cam, rd, cam.u.z as int, cam.v.z as int);
    Ray {
        origin: Point3 {
            x: (cam.origin.x + offx) as i64,
            y: (cam.origin.y + offy) as i64,
            z: (cam.origin.z + offz) as i64,
        },
        direction: Vec3 {
            x: (cam.lower_left_corner.x + s * cam.horizontal.x / (SCALE as int) + t * cam.vertical.x
                / (SCALE as int) - cam.origin.x - offx) as i64,
            y: (cam.lower_left_corner.y + s * cam.horizontal.y / (SCALE as int) + t * cam.vertical.y
                / (SCALE as int) - cam.origin.y - offy) as i64,
            z: (cam.lower_left_corner.z + s * cam.horizontal.z / (SCALE as int) + t * cam.vertical.z
                / (SCALE as int) - cam.origin.z - offz) as i64,
        },
    }
}

/// Every intermediate of the ray construction stays in range: the offsets
/// within a few scales, the direction within the global coordinate bound.
proof fn lemma_ray_bounds(cam: Camera, s: int, t: int, rd: Vec3)
    requires
        cam.wf(),
        0 <= s <= SCALE,
        0 <= t <= SCALE,
        -SCALE <= rd.x <= SCALE,
        -SCALE <= rd.y <= SCALE,
        rd.z == 0,
    ensures
        -2 * SCALE <= rd.x * cam.lens_radius / (SCALE as int) <= 2 * SCALE,
        -2 * SCALE <= rd.y * cam.lens_radius / (SCALE as int) <= 2 * SCALE,
        ({
            let ox = rd.x * cam.lens_radius / (SCALE as int);
            let oy = rd.y * cam.lens_radius / (SCALE as int);
            &&& -16 * SCALE <= ox * cam.u.x / (SCALE as int) <= 16 * SCALE
            &&& -16 * SCALE <= ox * cam.u.y / (SCALE as int) <= 16 * SCALE
            &&& -16 * SCALE <= ox * cam.u.z / (SCALE as int) <= 16 * SCALE
            &&& -16 * SCALE <= oy * cam.v.x / (SCALE as int) <= 16 * SCALE
            &&& -16 * SCALE <= oy * cam.v.y / (SCALE as int) <= 16 * SCALE
            &&& -16 * SCALE <= oy * cam.v.z / (SCALE as int) <= 16 * SCALE
        }),
        -CAM_BOUND <= s * cam.horizontal.x / (SCALE as int) <= CAM_BOUND,
        -CAM_BOUND <= s * cam.horizontal.y / (SCALE as int) <= CAM_BOUND,
        -CAM_BOUND <= s * cam.horizontal.z / (SCALE as int) <= CAM_BOUND,
        -CAM_BOUND <= t * cam.vertical.x / (SCALE as int) <= CAM_BOUND,
        -CAM_BOUND <= t * cam.vertical.y / (SCALE as int) <= CAM_BOUND,
        -CAM_BOUND <= t * cam.vertical.z / (SCALE as int) <= CAM_BOUND,
{
    lemma_lens_scale(rd.x as int, cam.lens_radius as int);
    lemma_lens_scale(rd.y as int, cam.lens_radius as int);
    let ox = rd.x * cam.lens_radius / (SCALE as int);
    let oy = rd.y * cam.lens_radius / (SCALE as int);
    lemma_offset_scale(ox, cam.u.x as int);
    lemma_offset_scale(ox, cam.u.y as int);
    lemma_offset_scale(ox, cam.u.z as int);
    lemma_offset_scale(oy, cam.v.x as int);
    lemma_offset_scale(oy, cam.v.y as int);
    lemma_offset_scale(oy, cam.v.z as int);
    lemma_view_scale(s, cam.horizontal.x as int);
    lemma_view_scale(s, cam.horizontal.y as int);
    lemma_view_scale(s, cam.horizontal.z as int);
    lemma_view_scale(t, cam.vertical.x as int);
    lemma_view_scale(t, cam.vertical.y as int);
    lemma_view_scale(t, cam.vertical.z as int);
}

/// A lens sample scaled by the lens radius stays within two scales.
proof fn lemma_lens_scale(c: int, lens: int)
    requires
        -SCALE <= c <= SCALE,
        0 <= lens <= 2 * SCALE,
    ensures
        -2 * SCALE <= c * lens / (SCALE as int) <= 2 * SCALE,
{
    assert(-(2 * SCALE as int * SCALE as int) <= c * lens <= 2 * SCALE as int * SCALE as int && 2
        * SCALE as int * SCALE as int == 2000000000000) by (nonlinear_arith)
        requires
            -SCALE <= c <= SCALE,
            0 <= lens <= 2 * SCALE,
            SCALE == 1000000i64,
    ;
    lemma_div_mag(c * lens, SCALE as int, 2 * SCALE as int);
}

/// A lens offset projected on a basis vector stays within sixteen scales.
proof fn lemma_offset_scale(o: int, c: int)
    requires
        -2 * SCALE <= o <= 2 * SCALE,
        -8 * SCALE <= c <= 8 * SCALE,
    ensures
        -16 * SCALE <= o * c / (SCALE as int) <= 16 * SCALE,
{
    assert(-(16 * SCALE as int * SCALE as int) <= o * c <= 16 * SCALE as int * SCALE as int && 16
        * SCALE as int * SCALE as int == 16000000000000) by (nonlinear_arith)
        requires
            -2 * SCALE <= o <= 2 * SCALE,
            -8 * SCALE <= c <= 8 * SCALE,
            SCALE == 1000000i64,
    ;
    lemma_div_mag(o * c, SCALE as int, 16 * SCALE as int);
}

/// A cross-product component of two near-unit vectors stays within eight
/// scales.
proof fn lemma_unit_cross_bound(p: int, q: int, r2: int, s2: int)
    requires
        -2 * SCALE <= p <= 2 * SCALE,
        -2 * SCALE <= q <= 2 * SCALE,
        -2 * SCALE <= r2 <= 2 * SCALE,
        -2 * SCALE <= s2 <= 2 * SCALE,
    ensures
        -8 * SCALE <= (p * q - r2 * s2) / (SCALE as int) <= 8 * SCALE,
        -8 * SCALE <= (-(p * q) + r2 * s2) / (SCALE as int) <= 8 * SCALE,
{
    assert(-(8 * SCALE as int * SCALE as int) <= p * q - r2 * s2 <= 8 * SCALE as int * SCALE as int
        && 8 * SCALE as int * SCALE as int == 8000000000000 && -(p * q) + r2 * s2 == -(p * q - r2
        * s2)) by (nonlinear_arith)
        requires
            -2 * SCALE <= p <= 2 * SCALE,
            -2 * SCALE <= q <= 2 * SCALE,
            -2 * SCALE <= r2 <= 2 * SCALE,
            -2 * SCALE <= s2 <= 2 * SCALE,
            SCALE == 1000000i64,
    ;
    lemma_div_mag(p * q - r2 * s2, SCALE as int, 8 * SCALE as int);
    lemma_div_mag(-(p * q) + r2 * s2, SCALE as int, 8 * SCALE as int);
}

/// A viewport extent scaled by a normalized coordinate stays within the
/// viewport bound.
proof fn lemma_view_scale(s: int, c: int)
    requires
        0 <= s <= SCALE,
        -CAM_BOUND <= c <= CAM_BOUND,
    ensures
        -CAM_BOUND <= s * c / (SCALE as int) <= CAM_BOUND,
{
    assert(-(CAM_BOUND as int * SCALE as int) <= s * c <= CAM_BOUND as int * SCALE as int
        && CAM_BOUND as int * SCALE as int == 134217728000000) by (nonlinear_arith)
        requires
            0 <= s <= SCALE,
            -CAM_BOUND <= c <= CAM_BOUND,
            SCALE == 1000000i64,
            CAM_BOUND == 134217728i64,
    ;
    lemma_div_mag(s * c, SCALE as int, CAM_BOUND as int);
}

} // verus!
