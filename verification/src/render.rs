//! The recursive shading integrator and per-pixel rendering: trace, ask
//! the material to scatter, recurse up to the depth cap, average samples,
//! gamma-correct and quantize.

use vstd::prelude::*;

verus! {

use crate::camera::Camera;
use crate::hitable::HitableList;
use crate::hitable::Sphere;
use crate::hitable::lemma_list_hit_loop_bounded;
use crate::hitable::list_hit;
use crate::num::BOUND;
use crate::num::SCALE;
use crate::num::clamp_spec;
use crate::num::clamp128;
use crate::num::div_floor;
use crate::num::isqrt;
use crate::num::lemma_div_mag;
use crate::num::lemma_div_range;
use crate::num::lemma_sqrt_floor_bounds;
use crate::num::lemma_sqrt_floor_le;
use crate::num::sqrt_floor;
use crate::camera::cam_ray;
use crate::material::scatter_spec;
use crate::material::unit_of;
use crate::ray::Ray;
use crate::sample::rand_range;
use crate::sample::random_in_unit_sphere;
use crate::vec3::Vec3;
use crate::vec3::dot2;

/// The lower ray-parameter bound of every shading query, one thousandth
/// of a unit: it rejects immediate re-intersection at the previous hit
/// point.
pub const HIT_EPS: i64 = 1000;

/// The recursion cutoff: a hit at this depth contributes no light.
pub const MAX_DEPTH: i32 = 50;

/// The clamped interpolation parameter of the sky gradient.
pub open spec fn sky_t(r: Ray) -> int {
    clamp_spec((unit_of(r.direction).y + SCALE) / 2, 0, SCALE as int)
}

/// The sky gradient: white blended towards sky blue with the ray's
/// upward tilt.
pub open spec fn sky_color(r: Ray) -> Vec3 {
    let t = sky_t(r);
    Vec3 {
        x: (SCALE - t + t * 500000 / (SCALE as int)) as i64,
        y: (SCALE - t + t * 700000 / (SCALE as int)) as i64,
        z: (SCALE - t + t * 1000000 / (SCALE as int)) as i64,
    }
}

/// One sky channel with blend weight `b` stays one unit at most.
proof fn lemma_sky_channel(t: int, b: int)
    requires
        0 <= t <= SCALE,
        0 <= b <= SCALE,
    ensures
        0 <= t * b / (SCALE as int) <= t,
        SCALE - t + t * b / (SCALE as int) <= SCALE,
{
    assert(0 <= t * b <= t * SCALE as int && t * SCALE as int <= SCALE as int * SCALE as int
        && SCALE as int * SCALE as int == 1000000000000) by (nonlinear_arith)
        requires
            0 <= t <= SCALE,
            0 <= b <= SCALE,
            SCALE == 1000000i64,
    ;
    lemma_div_range(t * b, SCALE as int);
    assert(t * b <= t * SCALE as int ==> t * b / (SCALE as int) <= t * SCALE as int / (
    SCALE as int)) by {
        if t * b <= t * SCALE as int {
            vstd::arithmetic::div_mod::lemma_div_is_ordered(t * b, t * SCALE as int, SCALE as int);
        }
    }
    vstd::arithmetic::div_mod::lemma_div_multiples_vanish(t, SCALE as int);
    assert(t * SCALE as int == SCALE as int * t) by (nonlinear_arith);
}

/// The color estimate along one light path, determined by the streams of
/// unit-ball samples and Schlick draws consumed at each bounce: the sky
/// gradient on a miss (black for a degenerate direction), black at the
/// depth cap, on absorption, or when a bounce leaves numeric range, and
/// otherwise the attenuation times the estimate for the scattered ray.
pub open spec fn trace_color(
    world: Seq<Sphere>,
    r: Ray,
    depth: int,
    samples: Seq<Vec3>,
    draws: Seq<i64>,
) -> Vec3
    decreases MAX_DEPTH - depth,
{
    match list_hit(world, r, HIT_EPS as int, i64::MAX as int) {
        Option::None => if dot2(r.direction, r.direction) > 0 {
            sky_color(r)
        } else {
            Vec3 { x: 0i64, y: 0i64, z: 0i64 }
        },
        Option::Some(h) => {
            if depth >= MAX_DEPTH || samples.len() == 0 || draws.len() == 0 {
                Vec3 { x: 0i64, y: 0i64, z: 0i64 }
            } else {
                let sc = scatter_spec(h.material, r, h, samples[0], draws[0]);
                if sc.absorbed || !sc.ray.direction.wf() {
                    Vec3 { x: 0i64, y: 0i64, z: 0i64 }
                } else {
                    let b = trace_color(world, sc.ray, depth + 1, samples.skip(1), draws.skip(1));
                    Vec3 {
                        x: (sc.attenuation.x * b.x / (SCALE as int)) as i64,
                        y: (sc.attenuation.y * b.y / (SCALE as int)) as i64,
                        z: (sc.attenuation.z * b.z / (SCALE as int)) as i64,
                    }
                }
            }
        },
    }
}

/// Every sample lies in the unit ball and every draw in `[0, SCALE)`.
pub open spec fn draws_admissible(samples: Seq<Vec3>, draws: Seq<i64>) -> bool {
    &&& forall|i: int|
        0 <= i < samples.len() ==> {
            let p = #[trigger] samples[i];
            -SCALE <= p.x <= SCALE && -SCALE <= p.y <= SCALE && -SCALE <= p.z <= SCALE && dot2(p, p)
                < SCALE as int * SCALE as int
        }
    &&& forall|i: int| 0 <= i < draws.len() ==> 0 <= #[trigger] draws[i] < SCALE
}

/// A color the shading integrator can return for this ray and depth: the
/// path estimate for some admissible streams of samples and draws, one
/// pair per remaining bounce.
pub open spec fn color_possible(world: Seq<Sphere>, r: Ray, depth: int, c: Vec3) -> bool {
    exists|samples: Seq<Vec3>, draws: Seq<i64>|
        {
            &&& samples.len() == MAX_DEPTH - depth
            &&& draws.len() == MAX_DEPTH - depth
            &&& draws_admissible(samples, draws)
            &&& c == #[trigger] trace_color(world, r, depth, samples, draws)
        }
}

/// All-zero witness streams, used where the path ends without a bounce.
proof fn lemma_zero_streams(n: int)
    requires
        n >= 0,
    ensures
        Seq::new(n as nat, |i: int| Vec3 { x: 0i64, y: 0i64, z: 0i64 }).len() == n,
        Seq::new(n as nat, |i: int| 0i64).len() == n,
        draws_admissible(
            Seq::new(n as nat, |i: int| Vec3 { x: 0i64, y: 0i64, z: 0i64 }),
            Seq::new(n as nat, |i: int| 0i64),
        ),
{
    let samples = Seq::new(n as nat, |i: int| Vec3 { x: 0i64, y: 0i64, z: 0i64 });
    assert forall|i: int| 0 <= i < samples.len() implies {
        let p = #[trigger] samples[i];
        -SCALE <= p.x <= SCALE && -SCALE <= p.y <= SCALE && -SCALE <= p.z <= SCALE && dot2(p, p)
            < SCALE as int * SCALE as int
    } by {
        assert(samples[i] == Vec3 { x: 0i64, y: 0i64, z: 0i64 });
    }
}

/// The recursive color estimate for a ray.  The result is pinned to the
/// path estimate `trace_color` for the admissible samples and draws that
/// the generator produced: the sky gradient on a miss, black at the depth
/// cap or on absorption, and the tinted recursive estimate otherwise.
/// The `decreases` measure bounds the recursion: no call ever exceeds
/// depth `MAX_DEPTH`.
pub fn color(ray: &Ray, world: &HitableList, depth: i32, rng: &mut rand::rngs::StdRng) -> (c: Vec3)
    requires
        ray.wf(),
        world.wf(),
        0 <= depth <= MAX_DEPTH,
    ensures
        0 <= c.x <= SCALE,
        0 <= c.y <= SCALE,
        0 <= c.z <= SCALE,
        list_hit(world.hitables@, *ray, HIT_EPS as int, i64::MAX as int) is None ==> c == (if dot2(
            ray.direction,
            ray.direction,
        ) > 0 {
            sky_color(*ray)
        } else {
            Vec3 { x: 0i64, y: 0i64, z: 0i64 }
        }),
        list_hit(world.hitables@, *ray, HIT_EPS as int, i64::MAX as int) is Some && depth
            >= MAX_DEPTH ==> c == (Vec3 { x: 0i64, y: 0i64, z: 0i64 }),
        color_possible(world.hitables@, *ray, depth as int, c),
    decreases MAX_DEPTH - depth,
{
    let ghost n = MAX_DEPTH - depth as int;
    match world.hit(ray, HIT_EPS, i64::MAX) {
        Some(rec) => {
            if depth < MAX_DEPTH {
                proof {
                    lemma_list_hit_loop_bounded(
                        world.hitables@,
                        *ray,
                        HIT_EPS as int,
                        i64::MAX as int,
                        None,
                    );
                }
                let sample = random_in_unit_sphere(rng);
                let draw = rand_range(rng, 0, SCALE);
                let sc = rec.material.scatter(ray, &rec, sample, draw);
                if sc.absorbed {
                    proof {
                        lemma_ended_path(world.hitables@, *ray, depth as int, sample, draw);
                    }
                    Vec3 { x: 0, y: 0, z: 0 }
                } else {
                    let d = sc.ray.direction;
                    if -BOUND <= d.x && d.x <= BOUND && -BOUND <= d.y && d.y <= BOUND && -BOUND
                        <= d.z && d.z <= BOUND {
                        let bounced = color(&sc.ray, world, depth + 1, rng);
                        proof {
                            lemma_channel_product(sc.attenuation.x as int, bounced.x as int);
                            lemma_channel_product(sc.attenuation.y as int, bounced.y as int);
                            lemma_channel_product(sc.attenuation.z as int, bounced.z as int);
                        }
                        let out = sc.attenuation.mul(bounced);
                        proof {
                            let (s2, d2): (Seq<Vec3>, Seq<i64>) = choose|s2: Seq<Vec3>, d2: Seq<
                                i64,
                            >|
                                {
                                    &&& s2.len() == MAX_DEPTH - (depth + 1)
                                    &&& d2.len() == MAX_DEPTH - (depth + 1)
                                    &&& draws_admissible(s2, d2)
                                    &&& bounced == #[trigger] trace_color(
                                        world.hitables@,
                                        sc.ray,
                                        depth + 1,
                                        s2,
                                        d2,
                                    )
                                };
                            let samples = seq![sample] + s2;
                            let draws = seq![draw] + d2;
                            assert(samples.skip(1) =~= s2);
                            assert(draws.skip(1) =~= d2);
                            assert(samples[0] == sample && draws[0] == draw);
                            assert(draws_admissible(samples, draws)) by {
                                assert forall|i: int| 0 <= i < samples.len() implies {
                                    let p = #[trigger] samples[i];
                                    -SCALE <= p.x <= SCALE && -SCALE <= p.y <= SCALE && -SCALE
                                        <= p.z <= SCALE && dot2(p, p) < SCALE as int * SCALE as int
                                } by {
                                    if i > 0 {
                                        assert(samples[i] == s2[i - 1]);
                                    }
                                }
                                assert forall|i: int| 0 <= i < draws.len() implies 0
                                    <= #[trigger] draws[i] < SCALE by {
                                    if i > 0 {
                                        assert(draws[i] == d2[i - 1]);
                                    }
                                }
                            }
                            assert(out == trace_color(
                                world.hitables@,
                                *ray,
                                depth as int,
                                samples,
                                draws,
                            ));
                        }
                        out
                    } else {
                        proof {
                            lemma_ended_path(world.hitables@, *ray, depth as int, sample, draw);
                        }
                        Vec3 { x: 0, y: 0, z: 0 }
                    }
                }
            } else {
                proof {
                    lemma_zero_streams(n);
                    let samples = Seq::new(n as nat, |i: int| Vec3 { x: 0i64, y: 0i64, z: 0i64 });
                    let draws = Seq::new(n as nat, |i: int| 0i64);
                    assert((Vec3 { x: 0i64, y: 0i64, z: 0i64 }) == trace_color(
                        world.hitables@,
                        *ray,
                        depth as int,
                        samples,
                        draws,
                    ));
                }
                Vec3 { x: 0, y: 0, z: 0 }
            }
        },
        None => {
            proof {
                lemma_zero_streams(n);
            }
            let ghost samples = Seq::new(n as nat, |i: int| Vec3 { x: 0i64, y: 0i64, z: 0i64 });
            let ghost draws = Seq::new(n as nat, |i: int| 0i64);
            let sq = ray.direction.squared_length();
            if sq > 0 {
                let uv = ray.direction.normalize();
                let t: i64 = clamp128(
                    div_floor((uv.y as i128) + (SCALE as i128), 2),
                    0,
                    SCALE,
                );
                proof {
                    lemma_sky_channel(t as int, 500000);
                    lemma_sky_channel(t as int, 700000);
                    lemma_sky_channel(t as int, 1000000);
                }
                let out = Vec3 {
                    x: SCALE - t + div_floor((t as i128) * 500000, SCALE as i128) as i64,
                    y: SCALE - t + div_floor((t as i128) * 700000, SCALE as i128) as i64,
                    z: SCALE - t + div_floor((t as i128) * 1000000, SCALE as i128) as i64,
                };
                proof {
                    assert(out == trace_color(world.hitables@, *ray, depth as int, samples, draws));
                }
                out
            } else {
                proof {
                    assert((Vec3 { x: 0i64, y: 0i64, z: 0i64 }) == trace_color(
                        world.hitables@,
                        *ray,
                        depth as int,
                        samples,
                        draws,
                    ));
                }
                Vec3 { x: 0, y: 0, z: 0 }
            }
        },
    }
}

/// A path that ends at the current bounce (absorption or a direction out
/// of numeric range) yields black, whatever the remaining streams hold.
proof fn lemma_ended_path(world: Seq<Sphere>, r: Ray, depth: int, sample: Vec3, draw: i64)
    requires
        list_hit(world, r, HIT_EPS as int, i64::MAX as int) is Some,
        depth < MAX_DEPTH,
        -SCALE <= sample.x <= SCALE,
        -SCALE <= sample.y <= SCALE,
        -SCALE <= sample.z <= SCALE,
        dot2(sample, sample) < SCALE as int * SCALE as int,
        0 <= draw < SCALE,
        ({
            let h = list_hit(world, r, HIT_EPS as int, i64::MAX as int)->Some_0;
            let sc = scatter_spec(h.material, r, h, sample, draw);
            sc.absorbed || !sc.ray.direction.wf()
        }),
    ensures
        color_possible(world, r, depth, Vec3 { x: 0i64, y: 0i64, z: 0i64 }),
{
    let n = MAX_DEPTH - depth;
    lemma_zero_streams(n - 1);
    let samples = seq![sample] + Seq::new((n - 1) as nat, |i: int| Vec3 { x: 0i64, y: 0i64, z: 0i64 });
    let draws = seq![draw] + Seq::new((n - 1) as nat, |i: int| 0i64);
    assert(samples[0] == sample && draws[0] == draw);
    assert(draws_admissible(samples, draws)) by {
        assert forall|i: int| 0 <= i < samples.len() implies {
            let p = #[trigger] samples[i];
            -SCALE <= p.x <= SCALE && -SCALE <= p.y <= SCALE && -SCALE <= p.z <= SCALE && dot2(p, p)
                < SCALE as int * SCALE as int
        } by {
            if i > 0 {
                assert(samples[i] == (Vec3 { x: 0i64, y: 0i64, z: 0i64 }));
            }
        }
        assert forall|i: int| 0 <= i < draws.len() implies 0 <= #[trigger] draws[i] < SCALE by {
            if i > 0 {
                assert(draws[i] == 0i64);
            }
        }
    }
    assert((Vec3 { x: 0i64, y: 0i64, z: 0i64 }) == trace_color(world, r, depth, samples, draws));
}

/// The product of two channels in `[0, 1]` stays in `[0, 1]`.
proof fn lemma_channel_product(a: int, b: int)
    requires
        0 <= a <= SCALE,
        0 <= b <= SCALE,
    ensures
        0 <= a * b / (SCALE as int) <= SCALE,
{
    assert(0 <= a * b <= SCALE as int * SCALE as int && SCALE as int * SCALE as int
        == 1000000000000) by (nonlinear_arith)
        requires
            0 <= a <= SCALE,
            0 <= b <= SCALE,
            SCALE == 1000000i64,
    ;
    lemma_div_range(a * b, SCALE as int);
    lemma_div_mag(a * b, SCALE as int, SCALE as int);
}

/// Gamma-corrects one averaged channel by a square root and quantizes it
/// to eight bits, exactly as stated.
pub fn gamma_quantize(c: i64) -> (q: u8)
    requires
        0 <= c <= SCALE,
    ensures
        q == 25599 * (sqrt_floor((c * SCALE) as nat) as int) / (100 * SCALE as int),
        q <= 255,
{
    proof {
        assert(0 <= c as int * SCALE as int <= 1000000000000 && (SCALE as int + 1) * (SCALE as int
            + 1) > 1000000000000) by (nonlinear_arith)
            requires
                0 <= c <= SCALE,
                SCALE == 1000000i64,
        ;
        lemma_sqrt_floor_le((c * SCALE) as nat, SCALE as nat);
        lemma_sqrt_floor_bounds((c * SCALE) as nat);
        lemma_div_range(25599 * (sqrt_floor((c * SCALE) as nat) as int), 100 * SCALE as int);
        lemma_quantize_bound(sqrt_floor((c * SCALE) as nat) as int);
    }
    let g: i64 = isqrt((c as u128) * (SCALE as u128)) as i64;
    div_floor(25599 * (g as i128), 100 * (SCALE as i128)) as u8
}

/// The quantized channel never exceeds 255.
proof fn lemma_quantize_bound(g: int)
    requires
        0 <= g <= SCALE,
    ensures
        25599 * g / (100 * SCALE as int) <= 255,
{
    lemma_div_mag(25599 * g, 100 * SCALE as int, 256);
    assert(25599 * g <= 256 * (100 * SCALE as int) && -(256 * (100 * SCALE as int)) <= 25599 * g)
        by (nonlinear_arith)
        requires
            0 <= g <= SCALE,
            SCALE == 1000000i64,
    ;
    let q = 25599 * g / (100 * SCALE as int);
    vstd::arithmetic::div_mod::lemma_fundamental_div_mod(25599 * g, 100 * SCALE as int);
    vstd::arithmetic::div_mod::lemma_mod_bound(25599 * g, 100 * SCALE as int);
    assert(q <= 255) by (nonlinear_arith)
        requires
            25599 * g == 100 * SCALE as int * q + 25599 * g % (100 * SCALE as int),
            0 <= 25599 * g % (100 * SCALE as int) < 100 * SCALE as int,
            25599 * g <= 25599 * SCALE as int,
            SCALE == 1000000i64,
    ;
}

/// A ray the camera can produce for pixel `(x, y)` of an `nx`-by-`ny`
/// image: some sub-pixel jitter pair and lens-disk sample.
pub open spec fn pixel_ray(cam: Camera, x: int, y: int, nx: int, ny: int, r: Ray) -> bool {
    exists|ju: int, jv: int, rd: Vec3|
        {
            &&& 0 <= ju < SCALE
            &&& 0 <= jv < SCALE
            &&& dot2(rd, rd) < SCALE as int * SCALE as int
            &&& rd.z == 0
            &&& r == #[trigger] cam_ray(cam, (x * SCALE + ju) / nx, (y * SCALE + jv) / ny, rd)
        }
}

/// One per-sample estimate for a pixel: a color the shading integrator
/// can return for some camera ray of that pixel.
pub open spec fn pixel_sample(
    cam: Camera,
    world: Seq<Sphere>,
    x: int,
    y: int,
    nx: int,
    ny: int,
    c: Vec3,
) -> bool {
    exists|r: Ray| #[trigger] pixel_ray(cam, x, y, nx, ny, r) && color_possible(world, r, 0, c)
}

/// The sum of the first channel over a sequence of colors.
pub open spec fn sum_x(s: Seq<Vec3>) -> int
    decreases s.len(),
{
    if s.len() == 0 {
        0
    } else {
        sum_x(s.drop_last()) + s.last().x
    }
}

/// The sum of the second channel over a sequence of colors.
pub open spec fn sum_y(s: Seq<Vec3>) -> int
    decreases s.len(),
{
    if s.len() == 0 {
        0
    } else {
        sum_y(s.drop_last()) + s.last().y
    }
}

/// The sum of the third channel over a sequence of colors.
pub open spec fn sum_z(s: Seq<Vec3>) -> int
    decreases s.len(),
{
    if s.len() == 0 {
        0
    } else {
        sum_z(s.drop_last()) + s.last().z
    }
}

/// The gamma-corrected, quantized byte for one channel sum over `ns`
/// samples.
pub open spec fn quantized(sum: int, ns: int) -> int {
    25599 * (sqrt_floor(((sum / ns) * SCALE) as nat) as int) / (100 * SCALE as int)
}

/// Renders one pixel: `ns` jittered samples through the camera, averaged,
/// gamma-corrected and quantized to one byte per channel.  The result is
/// pinned to the quantized average of `ns` per-sample estimates, each of
/// which the integrator can return for some camera ray of this pixel.
pub fn render_pixel(
    cam: &Camera,
    world: &HitableList,
    x: usize,
    y: usize,
    nx: usize,
    ny: usize,
    ns: usize,
    rng: &mut rand::rngs::StdRng,
) -> (px: (u8, u8, u8))
    requires
        cam.wf(),
        world.wf(),
        x < nx,
        y < ny,
        nx <= 100000,
        ny <= 100000,
        1 <= ns <= 1000000,
    ensures
        exists|samples: Seq<Vec3>|
            {
                &&& (#[trigger] samples.len()) == ns
                &&& (forall|i: int|
                    0 <= i < samples.len() ==> pixel_sample(
                        *cam,
                        world.hitables@,
                        x as int,
                        y as int,
                        nx as int,
                        ny as int,
                        #[trigger] samples[i],
                    ))
                &&& px.0 == quantized(sum_x(samples), ns as int)
                &&& px.1 == quantized(sum_y(samples), ns as int)
                &&& px.2 == quantized(sum_z(samples), ns as int)
            },
{
    let mut sx: i64 = 0;
    let mut sy: i64 = 0;
    let mut sz: i64 = 0;
    let mut s: usize = 0;
    let ghost mut samples: Seq<Vec3> = Seq::empty();
    while s < ns
        invariant
            cam.wf(),
            world.wf(),
            x < nx <= 100000,
            y < ny <= 100000,
            1 <= ns <= 1000000,
            s <= ns,
            0 <= sx <= s * SCALE,
            0 <= sy <= s * SCALE,
            0 <= sz <= s * SCALE,
            samples.len() == s,
            forall|i: int|
                0 <= i < samples.len() ==> pixel_sample(
                    *cam,
                    world.hitables@,
                    x as int,
                    y as int,
                    nx as int,
                    ny as int,
                    #[trigger] samples[i],
                ),
            sx == sum_x(samples),
            sy == sum_y(samples),
            sz == sum_z(samples),
        decreases ns - s,
    {
        let ju = rand_range(rng, 0, SCALE);
        let jv = rand_range(rng, 0, SCALE);
        let u = pixel_coord(x, ju, nx);
        let v = pixel_coord(y, jv, ny);
        let r = cam.get_ray(u, v, rng);
        let col = color(&r, world, 0, rng);
        proof {
            let rd = choose|rd: Vec3|
                dot2(rd, rd) < SCALE as int * SCALE as int && rd.z == 0 && #[trigger] cam_ray(
                    *cam,
                    u as int,
                    v as int,
                    rd,
                ) == r;
            assert(cam_ray(
                *cam,
                (x as int * SCALE + ju as int) / (nx as int),
                (y as int * SCALE + jv as int) / (ny as int),
                rd,
            ) == r);
            assert(pixel_ray(*cam, x as int, y as int, nx as int, ny as int, r));
            assert(pixel_sample(
                *cam,
                world.hitables@,
                x as int,
                y as int,
                nx as int,
                ny as int,
                col,
            ));
            let prev = samples;
            samples = samples.push(col);
            assert(samples.drop_last() =~= prev);
            assert(samples.last() == col);
            assert forall|i: int| 0 <= i < samples.len() implies pixel_sample(
                *cam,
                world.hitables@,
                x as int,
                y as int,
                nx as int,
                ny as int,
                #[trigger] samples[i],
            ) by {
                if i < prev.len() {
                    assert(samples[i] == prev[i]);
                } else {
                    assert(samples[i] == col);
                }
            }
        }
        sx = sx + col.x;
        sy = sy + col.y;
        sz = sz + col.z;
        s = s + 1;
    }
    let ax = average_channel(sx, ns);
    let ay = average_channel(sy, ns);
    let az = average_channel(sz, ns);
    let px = (gamma_quantize(ax), gamma_quantize(ay), gamma_quantize(az));
    proof {
        assert(px.0 == quantized(sum_x(samples), ns as int));
        assert(px.1 == quantized(sum_y(samples), ns as int));
        assert(px.2 == quantized(sum_z(samples), ns as int));
    }
    px
}

/// The normalized image coordinate `(i + jitter) / n`, in `[0, 1]`.
fn pixel_coord(i: usize, jitter: i64, n: usize) -> (u: i64)
    requires
        i < n,
        n <= 100000,
        0 <= jitter < SCALE,
    ensures
        u == ((i * SCALE) as int + jitter) / n as int,
        0 <= u <= SCALE,
{
    proof {
        lemma_div_range((i * SCALE) as int + jitter, n as int);
        assert((i * SCALE) as int + jitter <= SCALE as int * n as int && i * SCALE + SCALE <= SCALE
            * n) by (nonlinear_arith)
            requires
                i < n,
                0 <= jitter < SCALE,
                SCALE == 1000000i64,
                n <= 100000,
        ;
        lemma_div_mag((i * SCALE) as int + jitter, n as int, SCALE as int);
        assert(SCALE as int * n as int == n as int * SCALE as int) by (nonlinear_arith);
    }
    div_floor((i as i128) * (SCALE as i128) + (jitter as i128), n as i128) as i64
}

/// The accumulated channel divided by the sample count, in `[0, 1]`.
fn average_channel(acc: i64, ns: usize) -> (a: i64)
    requires
        1 <= ns <= 1000000,
        0 <= acc <= ns * SCALE,
    ensures
        a == acc as int / ns as int,
        0 <= a <= SCALE,
{
    proof {
        lemma_div_range(acc as int, ns as int);
        assert(ns * SCALE == SCALE as int * ns as int) by (nonlinear_arith);
        lemma_div_mag(acc as int, ns as int, SCALE as int);
    }
    div_floor(acc as i128, ns as i128) as i64
}

} // verus!
