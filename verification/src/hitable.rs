//! Scene geometry: spheres, hit records, and nearest-hit aggregation.
//!
//! A hit query solves the fixed-point quadratic `a t^2 + 2 b t + c = 0`
//! exactly over the integers; the contract pins the returned record to the
//! closed-form roots, so a caller can compute the expected hit by hand.

use vstd::prelude::*;

verus! {

use crate::material::Material;
use crate::num::BOUND;
use crate::num::SCALE;
use crate::num::div_floor;
use crate::num::isqrt;
use crate::num::lemma_sqrt_floor_bounds;
use crate::num::lemma_sqrt_floor_le;
use crate::num::sqrt_floor;
use crate::point3::Point3;
use crate::ray::Ray;
use crate::ray::at_param;
use crate::vec3::Vec3;
use crate::vec3::dot2;
use crate::vec3::lemma_prod_bound2;
use crate::vec3::lemma_rescale_bound;

/// The result of a successful intersection query: the ray parameter, the
/// hit point, the outward unit normal, and a copy of the surface material.
#[derive(Clone, Copy, Debug, PartialEq, Eq, Structural)]
pub struct HitRecord {
    pub t: i64,
    pub p: Point3,
    pub n: Vec3,
    pub material: Material,
}

/// A sphere with its surface material.
#[derive(Clone, Copy, Debug, PartialEq, Eq, Structural)]
pub struct Sphere {
    pub center: Point3,
    pub radius: i64,
    pub material: Material,
}

/// Half the linear coefficient of the hit quadratic: `oc . d`, raw.
pub open spec fn hit_b(s: Sphere, r: Ray) -> int {
    (r.origin.x - s.center.x) * r.direction.x + (r.origin.y - s.center.y) * r.direction.y + (
    r.origin.z - s.center.z) * r.direction.z
}

/// The quadratic coefficient: `d . d`, raw.
pub open spec fn hit_a(r: Ray) -> int {
    r.direction.x * r.direction.x + r.direction.y * r.direction.y + r.direction.z * r.direction.z
}

/// The constant coefficient: `oc . oc - radius^2`, raw.
pub open spec fn hit_c(s: Sphere, r: Ray) -> int {
    (r.origin.x - s.center.x) * (r.origin.x - s.center.x) + (r.origin.y - s.center.y) * (r.origin.y
        - s.center.y) + (r.origin.z - s.center.z) * (r.origin.z - s.center.z) - s.radius * s.radius
}

/// The discriminant `b^2 - a c`; positive exactly when the ray crosses the
/// sphere's surface.
pub open spec fn hit_disc(s: Sphere, r: Ray) -> int {
    hit_b(s, r) * hit_b(s, r) - hit_a(r) * hit_c(s, r)
}

/// The rounded square root of the discriminant.
pub open spec fn disc_root(s: Sphere, r: Ray) -> int {
    sqrt_floor(hit_disc(s, r) as nat) as int
}

/// The nearer root of the quadratic, as a fixed-point ray parameter.
pub open spec fn small_root(s: Sphere, r: Ray) -> int {
    (-hit_b(s, r) - disc_root(s, r)) * (SCALE as int) / hit_a(r)
}

/// The farther root of the quadratic, as a fixed-point ray parameter.
pub open spec fn large_root(s: Sphere, r: Ray) -> int {
    (-hit_b(s, r) + disc_root(s, r)) * (SCALE as int) / hit_a(r)
}

/// A root is accepted when it lies strictly inside the query interval and
/// within the global coordinate bound.
pub open spec fn root_in_range(t: int, t_min: int, t_max: int) -> bool {
    t_min < t < t_max && -BOUND <= t <= BOUND
}

/// The hit point `origin + t * direction`.
pub open spec fn hit_point(s: Sphere, r: Ray, t: int) -> Point3 {
    Point3 {
        x: at_param(r.origin.x as int, t, r.direction.x as int) as i64,
        y: at_param(r.origin.y as int, t, r.direction.y as int) as i64,
        z: at_param(r.origin.z as int, t, r.direction.z as int) as i64,
    }
}

/// One component of the outward normal `(p - center) / radius`.
pub open spec fn normal_component(o: int, c: int, t: int, d: int, rad: int) -> int {
    (at_param(o, t, d) - c) * (SCALE as int) / rad
}

/// The outward normal at the hit point, unit length up to rounding.  For
/// spheres of only a few ticks the rounding is coarse; the query rejects
/// roots whose rounded normal leaves the stated component bound.
pub open spec fn hit_normal(s: Sphere, r: Ray, t: int) -> Vec3 {
    Vec3 {
        x: normal_component(
            r.origin.x as int,
            s.center.x as int,
            t,
            r.direction.x as int,
            s.radius as int,
        ) as i64,
        y: normal_component(
            r.origin.y as int,
            s.center.y as int,
            t,
            r.direction.y as int,
            s.radius as int,
        ) as i64,
        z: normal_component(
            r.origin.z as int,
            s.center.z as int,
            t,
            r.direction.z as int,
            s.radius as int,
        ) as i64,
    }
}

/// The rounded normal keeps near-unit components; a root whose normal
/// strays outside twice the scale is rejected as out of numeric range.
pub open spec fn normal_fits(s: Sphere, r: Ray, t: int) -> bool {
    &&& -2 * SCALE <= normal_component(
        r.origin.x as int,
        s.center.x as int,
        t,
        r.direction.x as int,
        s.radius as int,
    ) <= 2 * SCALE
    &&& -2 * SCALE <= normal_component(
        r.origin.y as int,
        s.center.y as int,
        t,
        r.direction.y as int,
        s.radius as int,
    ) <= 2 * SCALE
    &&& -2 * SCALE <= normal_component(
        r.origin.z as int,
        s.center.z as int,
        t,
        r.direction.z as int,
        s.radius as int,
    ) <= 2 * SCALE
}

/// The hit point stays inside the global coordinate bound.
pub open spec fn point_fits(s: Sphere, r: Ray, t: int) -> bool {
    &&& -BOUND <= at_param(r.origin.x as int, t, r.direction.x as int) <= BOUND
    &&& -BOUND <= at_param(r.origin.y as int, t, r.direction.y as int) <= BOUND
    &&& -BOUND <= at_param(r.origin.z as int, t, r.direction.z as int) <= BOUND
}

/// A root yields a record only when both the hit point and the rounded
/// normal stay in numeric range.
pub open spec fn record_fits(s: Sphere, r: Ray, t: int) -> bool {
    point_fits(s, r, t) && normal_fits(s, r, t)
}

/// The record returned for an accepted root.
pub open spec fn sphere_hit_at(s: Sphere, r: Ray, t: int) -> HitRecord {
    HitRecord { t: t as i64, p: hit_point(s, r, t), n: hit_normal(s, r, t), material: s.material }
}

/// Field bounds that every record returned by an intersection query meets.
pub open spec fn rec_bounded(h: HitRecord) -> bool {
    &&& h.p.wf()
    &&& -2 * SCALE <= h.n.x <= 2 * SCALE
    &&& -2 * SCALE <= h.n.y <= 2 * SCALE
    &&& -2 * SCALE <= h.n.z <= 2 * SCALE
    &&& h.material.wf()
    &&& -BOUND <= h.t <= BOUND
}

/// The whole intersection query: the nearer acceptable root wins, then the
/// farther one, else there is no hit.
pub open spec fn sphere_hit(s: Sphere, r: Ray, t_min: int, t_max: int) -> Option<HitRecord> {
    if hit_disc(s, r) > 0 {
        if root_in_range(small_root(s, r), t_min, t_max) && record_fits(s, r, small_root(s, r)) {
            Some(sphere_hit_at(s, r, small_root(s, r)))
        } else if root_in_range(large_root(s, r), t_min, t_max) && record_fits(
            s,
            r,
            large_root(s, r),
        ) {
            Some(sphere_hit_at(s, r, large_root(s, r)))
        } else {
            None
        }
    } else {
        None
    }
}

impl Sphere {
    /// A positive, bounded radius and a bounded center.
    pub open spec fn wf(self) -> bool {
        self.center.wf() && 0 < self.radius <= BOUND && self.material.wf()
    }

    pub fn new(center: Point3, radius: i64, material: Material) -> (s: Sphere)
        ensures
            s == (Sphere { center, radius, material }),
    {
        Sphere { center, radius, material }
    }

    /// Builds the record for an accepted root, or rejects it when the
    /// rounded normal falls out of numeric range.
    fn record_at(&self, r: &Ray, t: i64) -> (res: Option<HitRecord>)
        requires
            self.wf(),
            r.wf(),
            -BOUND <= t <= BOUND,
        ensures
            res == if record_fits(*self, *r, t as int) {
                Some(sphere_hit_at(*self, *r, t as int))
            } else {
                None::<HitRecord>
            },
    {
        proof {
            lemma_rescale_bound(t as int, self.center.x as int);
            lemma_rescale_bound(t as int, r.direction.x as int);
            lemma_rescale_bound(t as int, r.direction.y as int);
            lemma_rescale_bound(t as int, r.direction.z as int);
        }
        let px: i128 = (r.origin.x as i128) + div_floor(
            (t as i128) * (r.direction.x as i128),
            SCALE as i128,
        );
        let py: i128 = (r.origin.y as i128) + div_floor(
            (t as i128) * (r.direction.y as i128),
            SCALE as i128,
        );
        let pz: i128 = (r.origin.z as i128) + div_floor(
            (t as i128) * (r.direction.z as i128),
            SCALE as i128,
        );
        let nx: i128 = div_floor((px - (self.center.x as i128)) * (SCALE as i128), self.radius as i128);
        let ny: i128 = div_floor((py - (self.center.y as i128)) * (SCALE as i128), self.radius as i128);
        let nz: i128 = div_floor((pz - (self.center.z as i128)) * (SCALE as i128), self.radius as i128);
        let lo: i128 = -2 * (SCALE as i128);
        let hi: i128 = 2 * (SCALE as i128);
        let pb: i128 = BOUND as i128;
        if -pb <= px && px <= pb && -pb <= py && py <= pb && -pb <= pz && pz <= pb && lo <= nx && nx
            <= hi && lo <= ny && ny <= hi && lo <= nz && nz <= hi {
            Some(
                HitRecord {
                    t,
                    p: Point3 { x: px as i64, y: py as i64, z: pz as i64 },
                    n: Vec3 { x: nx as i64, y: ny as i64, z: nz as i64 },
                    material: self.material,
                },
            )
        } else {
            None
        }
    }

    /// The nearest intersection with the ray inside `(t_min, t_max)`.
    pub fn hit(&self, r: &Ray, t_min: i64, t_max: i64) -> (res: Option<HitRecord>)
        requires
            self.wf(),
            r.wf(),
        ensures
            res == sphere_hit(*self, *r, t_min as int, t_max as int),
    {
        let ocx: i128 = (r.origin.x as i128) - (self.center.x as i128);
        let ocy: i128 = (r.origin.y as i128) - (self.center.y as i128);
        let ocz: i128 = (r.origin.z as i128) - (self.center.z as i128);
        let dx: i128 = r.direction.x as i128;
        let dy: i128 = r.direction.y as i128;
        let dz: i128 = r.direction.z as i128;
        proof {
            lemma_quadratic_bounds(*self, *r);
        }
        let a: i128 = dx * dx + dy * dy + dz * dz;
        let b: i128 = ocx * dx + ocy * dy + ocz * dz;
        let c: i128 = ocx * ocx + ocy * ocy + ocz * ocz - (self.radius as i128) * (
        self.radius as i128);
        let disc: i128 = b * b - a * c;
        if disc > 0 {
            proof {
                lemma_positive_disc_positive_a(*self, *r);
                lemma_disc_root_bound(*self, *r);
            }
            let sq: i128 = isqrt(disc as u128) as i128;
            let t1: i128 = div_floor((-b - sq) * (SCALE as i128), a);
            let t2: i128 = div_floor((-b + sq) * (SCALE as i128), a);
            if (t_min as i128) < t1 && t1 < (t_max as i128) && -(BOUND as i128) <= t1 && t1 <= (
            BOUND as i128) {
                let first = self.record_at(r, t1 as i64);
                if first.is_some() {
                    return first;
                }
            }
            if (t_min as i128) < t2 && t2 < (t_max as i128) && -(BOUND as i128) <= t2 && t2 <= (
            BOUND as i128) {
                let second = self.record_at(r, t2 as i64);
                if second.is_some() {
                    return second;
                }
            }
            None
        } else {
            None
        }
    }
}

/// The fold that nearest-hit aggregation computes: each sphere is queried
/// with the interval narrowed to the closest hit found so far, and a hit
/// strictly closer than the best so far replaces it.
pub open spec fn list_hit_loop(
    ss: Seq<Sphere>,
    r: Ray,
    t_min: int,
    closest: int,
    best: Option<HitRecord>,
) -> Option<HitRecord>
    decreases ss.len(),
{
    if ss.len() == 0 {
        best
    } else {
        match sphere_hit(ss[0], r, t_min, closest) {
            Some(h) => list_hit_loop(
                ss.subrange(1, ss.len() as int),
                r,
                t_min,
                h.t as int,
                Some(h),
            ),
            None => list_hit_loop(ss.subrange(1, ss.len() as int), r, t_min, closest, best),
        }
    }
}

/// The nearest hit among all spheres of the list within `(t_min, t_max)`.
pub open spec fn list_hit(ss: Seq<Sphere>, r: Ray, t_min: int, t_max: int) -> Option<HitRecord> {
    list_hit_loop(ss, r, t_min, t_max, None)
}

/// An ordered collection of spheres aggregated by nearest hit.
pub struct HitableList {
    pub hitables: Vec<Sphere>,
}

impl HitableList {
    /// Every member sphere is well-formed.
    pub open spec fn wf(self) -> bool {
        forall|i: int| 0 <= i < self.hitables@.len() ==> (#[trigger] self.hitables@[i]).wf()
    }

    pub fn new(hitables: Vec<Sphere>) -> (l: HitableList)
        ensures
            l.hitables == hitables,
    {
        HitableList { hitables }
    }

    /// Scans all members and returns the closest valid hit, narrowing the
    /// query interval as the scan proceeds.
    pub fn hit(&self, r: &Ray, t_min: i64, t_max: i64) -> (res: Option<HitRecord>)
        requires
            self.wf(),
            r.wf(),
        ensures
            res == list_hit(self.hitables@, *r, t_min as int, t_max as int),
    {
        let ghost all = self.hitables@;
        let n = self.hitables.len();
        let mut closest: i64 = t_max;
        let mut best: Option<HitRecord> = None;
        let mut i: usize = 0;
        proof {
            assert(all.subrange(0, n as int) =~= all);
        }
        while i < n
            invariant
                i <= n == all.len(),
                all == self.hitables@,
                self.wf(),
                r.wf(),
                list_hit_loop(all.subrange(i as int, n as int), *r, t_min as int, closest as int, best)
                    == list_hit(all, *r, t_min as int, t_max as int),
            decreases n - i,
        {
            let ghost before = all.subrange(i as int, n as int);
            let sph = self.hitables[i];
            proof {
                assert(before[0] == all[i as int]);
                assert(before.subrange(1, before.len() as int) =~= all.subrange(
                    i + 1 as int,
                    n as int,
                ));
            }
            match sph.hit(r, t_min, closest) {
                Some(h) => {
                    closest = h.t;
                    best = Some(h);
                },
                None => {},
            }
            i = i + 1;
        }
        proof {
            assert(all.subrange(n as int, n as int).len() == 0);
        }
        best
    }
}

/// A successful intersection query returns a record whose fields are in
/// numeric range, and only for a ray with a nonzero direction.
pub proof fn lemma_sphere_hit_bounded(s: Sphere, r: Ray, t_min: int, t_max: int)
    requires
        s.wf(),
        sphere_hit(s, r, t_min, t_max) is Some,
    ensures
        rec_bounded(sphere_hit(s, r, t_min, t_max)->Some_0),
        dot2(r.direction, r.direction) > 0,
{
    lemma_positive_disc_positive_a(s, r);
}

/// Nearest-hit aggregation preserves record boundedness.
pub proof fn lemma_list_hit_loop_bounded(
    ss: Seq<Sphere>,
    r: Ray,
    t_min: int,
    closest: int,
    best: Option<HitRecord>,
)
    requires
        forall|i: int| 0 <= i < ss.len() ==> (#[trigger] ss[i]).wf(),
        best is Some ==> rec_bounded(best->Some_0) && dot2(r.direction, r.direction) > 0,
        list_hit_loop(ss, r, t_min, closest, best) is Some,
    ensures
        rec_bounded(list_hit_loop(ss, r, t_min, closest, best)->Some_0),
        dot2(r.direction, r.direction) > 0,
    decreases ss.len(),
{
    if ss.len() > 0 {
        match sphere_hit(ss[0], r, t_min, closest) {
            Some(h) => {
                lemma_sphere_hit_bounded(ss[0], r, t_min, closest);
                lemma_list_hit_loop_bounded(
                    ss.subrange(1, ss.len() as int),
                    r,
                    t_min,
                    h.t as int,
                    Some(h),
                );
            },
            None => {
                lemma_list_hit_loop_bounded(
                    ss.subrange(1, ss.len() as int),
                    r,
                    t_min,
                    closest,
                    best,
                );
            },
        }
    }
}

/// The nearer root never exceeds the farther root.
proof fn lemma_roots_ordered(s: Sphere, r: Ray)
    requires
        hit_disc(s, r) > 0,
    ensures
        small_root(s, r) <= large_root(s, r),
{
    lemma_positive_disc_positive_a(s, r);
    lemma_sqrt_floor_bounds(hit_disc(s, r) as nat);
    assert((-hit_b(s, r) - disc_root(s, r)) * (SCALE as int) <= (-hit_b(s, r) + disc_root(s, r)) * (
    SCALE as int)) by (nonlinear_arith)
        requires
            disc_root(s, r) >= 0,
            SCALE == 1000000i64,
    ;
    lemma_div_mag_helper(s, r);
}

/// Ordering of the two root quotients under their common denominator.
proof fn lemma_div_mag_helper(s: Sphere, r: Ray)
    requires
        hit_a(r) > 0,
        (-hit_b(s, r) - disc_root(s, r)) * (SCALE as int) <= (-hit_b(s, r) + disc_root(s, r)) * (
        SCALE as int),
    ensures
        small_root(s, r) <= large_root(s, r),
{
    vstd::arithmetic::div_mod::lemma_div_is_ordered(
        (-hit_b(s, r) - disc_root(s, r)) * (SCALE as int),
        (-hit_b(s, r) + disc_root(s, r)) * (SCALE as int),
        hit_a(r),
    );
}

/// Capping the far end of the query interval filters the full-interval
/// result: the same record comes back when its parameter is below the
/// cap, and nothing otherwise.
pub proof fn lemma_sphere_hit_capped(s: Sphere, r: Ray, t_min: int, t_max: int, cap: int)
    requires
        cap <= t_max,
    ensures
        sphere_hit(s, r, t_min, cap) == (match sphere_hit(s, r, t_min, t_max) {
            Some(h) => if (h.t as int) < cap {
                Some(h)
            } else {
                None::<HitRecord>
            },
            None => None::<HitRecord>,
        }),
{
    if hit_disc(s, r) > 0 {
        lemma_roots_ordered(s, r);
        let sm = small_root(s, r);
        let lg = large_root(s, r);
        if root_in_range(sm, t_min, t_max) && record_fits(s, r, sm) {
            assert(sphere_hit(s, r, t_min, t_max) == Some(sphere_hit_at(s, r, sm)));
        } else if root_in_range(lg, t_min, t_max) && record_fits(s, r, lg) {
            assert(!(root_in_range(sm, t_min, cap) && record_fits(s, r, sm)));
        } else {
            assert(!(root_in_range(sm, t_min, cap) && record_fits(s, r, sm)));
            assert(!(root_in_range(lg, t_min, cap) && record_fits(s, r, lg)));
        }
    }
}

/// The loop accumulator of nearest-hit aggregation only improves: the
/// final record is at least as close as the running best and as every
/// member's full-interval hit, and it comes from the list or the
/// accumulator.
proof fn lemma_loop_nearest(
    ss: Seq<Sphere>,
    r: Ray,
    t_min: int,
    t_max: int,
    closest: int,
    best: Option<HitRecord>,
)
    requires
        closest <= t_max,
        best is None ==> closest == t_max,
        best is Some ==> closest == best->Some_0.t as int,
    ensures
        list_hit_loop(ss, r, t_min, closest, best) is None ==> best is None,
        list_hit_loop(ss, r, t_min, closest, best) is Some ==> (list_hit_loop(
            ss,
            r,
            t_min,
            closest,
            best,
        )->Some_0.t as int) <= closest,
        list_hit_loop(ss, r, t_min, closest, best) is Some ==> (list_hit_loop(
            ss,
            r,
            t_min,
            closest,
            best,
        ) == best || exists|i: int|
            0 <= i < ss.len() && list_hit_loop(ss, r, t_min, closest, best) == #[trigger] sphere_hit(
                ss[i],
                r,
                t_min,
                t_max,
            )),
        forall|i: int|
            0 <= i < ss.len() && (#[trigger] sphere_hit(ss[i], r, t_min, t_max)) is Some ==> {
                &&& list_hit_loop(ss, r, t_min, closest, best) is Some
                &&& (list_hit_loop(ss, r, t_min, closest, best)->Some_0.t as int) <= sphere_hit(
                    ss[i],
                    r,
                    t_min,
                    t_max,
                )->Some_0.t as int
            },
    decreases ss.len(),
{
    if ss.len() > 0 {
        let rest = ss.subrange(1, ss.len() as int);
        lemma_sphere_hit_capped(ss[0], r, t_min, t_max, closest);
        match sphere_hit(ss[0], r, t_min, closest) {
            Some(h0) => {
                lemma_loop_nearest(rest, r, t_min, t_max, h0.t as int, Some(h0));
                assert forall|i: int|
                    0 <= i < ss.len() && (#[trigger] sphere_hit(ss[i], r, t_min, t_max))
                        is Some implies {
                    &&& list_hit_loop(ss, r, t_min, closest, best) is Some
                    &&& (list_hit_loop(ss, r, t_min, closest, best)->Some_0.t as int)
                        <= sphere_hit(ss[i], r, t_min, t_max)->Some_0.t as int
                } by {
                    if i > 0 {
                        assert(rest[i - 1] == ss[i]);
                    }
                }
                if list_hit_loop(rest, r, t_min, h0.t as int, Some(h0)) is Some {
                    let res = list_hit_loop(rest, r, t_min, h0.t as int, Some(h0));
                    if res != Some(h0) && (exists|j: int|
                        0 <= j < rest.len() && res == #[trigger] sphere_hit(
                            rest[j],
                            r,
                            t_min,
                            t_max,
                        )) {
                        let j = choose|j: int|
                            0 <= j < rest.len() && res == #[trigger] sphere_hit(
                                rest[j],
                                r,
                                t_min,
                                t_max,
                            );
                        assert(ss[j + 1] == rest[j]);
                    } else {
                        assert(res == Some(h0) && Some(h0) == sphere_hit(ss[0], r, t_min, t_max));
                    }
                }
            },
            None => {
                lemma_loop_nearest(rest, r, t_min, t_max, closest, best);
                assert forall|i: int|
                    0 <= i < ss.len() && (#[trigger] sphere_hit(ss[i], r, t_min, t_max))
                        is Some implies {
                    &&& list_hit_loop(ss, r, t_min, closest, best) is Some
                    &&& (list_hit_loop(ss, r, t_min, closest, best)->Some_0.t as int)
                        <= sphere_hit(ss[i], r, t_min, t_max)->Some_0.t as int
                } by {
                    if i > 0 {
                        assert(rest[i - 1] == ss[i]);
                    } else {
                        let full = sphere_hit(ss[0], r, t_min, t_max);
                        assert(full->Some_0.t as int >= closest);
                        if best is None {
                            assert(root_in_range(full->Some_0.t as int, t_min, t_max));
                            assert(false);
                        }
                    }
                }
                if list_hit_loop(rest, r, t_min, closest, best) is Some {
                    let res = list_hit_loop(rest, r, t_min, closest, best);
                    if res != best && (exists|j: int|
                        0 <= j < rest.len() && res == #[trigger] sphere_hit(
                            rest[j],
                            r,
                            t_min,
                            t_max,
                        )) {
                        let j = choose|j: int|
                            0 <= j < rest.len() && res == #[trigger] sphere_hit(
                                rest[j],
                                r,
                                t_min,
                                t_max,
                            );
                        assert(ss[j + 1] == rest[j]);
                    }
                }
            },
        }
    }
}

/// The nearest-hit law over any list: a miss means every member misses,
/// and a hit is some member's full-interval hit, no farther than any
/// other member's.
pub proof fn lemma_list_hit_nearest(ss: Seq<Sphere>, r: Ray, t_min: int, t_max: int)
    ensures
        list_hit(ss, r, t_min, t_max) is None ==> forall|i: int|
            0 <= i < ss.len() ==> (#[trigger] sphere_hit(ss[i], r, t_min, t_max)) is None,
        list_hit(ss, r, t_min, t_max) is Some ==> exists|i: int|
            0 <= i < ss.len() && list_hit(ss, r, t_min, t_max) == #[trigger] sphere_hit(
                ss[i],
                r,
                t_min,
                t_max,
            ),
        list_hit(ss, r, t_min, t_max) is Some ==> forall|i: int|
            0 <= i < ss.len() && (#[trigger] sphere_hit(ss[i], r, t_min, t_max)) is Some ==> (
            list_hit(ss, r, t_min, t_max)->Some_0.t as int) <= sphere_hit(
                ss[i],
                r,
                t_min,
                t_max,
            )->Some_0.t as int,
{
    lemma_loop_nearest(ss, r, t_min, t_max, t_max, None);
}

/// Narrowing the far end of the query interval past an existing hit does
/// not change the result: the same root is selected.
pub proof fn lemma_sphere_hit_narrows(s: Sphere, r: Ray, t_min: int, t_max: int, t_cap: int)
    requires
        sphere_hit(s, r, t_min, t_max) is Some,
        (sphere_hit(s, r, t_min, t_max)->Some_0).t < t_cap <= t_max,
    ensures
        sphere_hit(s, r, t_min, t_cap) == sphere_hit(s, r, t_min, t_max),
{
    let h = sphere_hit(s, r, t_min, t_max)->Some_0;
    let sm = small_root(s, r);
    let lg = large_root(s, r);
    if root_in_range(sm, t_min, t_max) && record_fits(s, r, sm) {
        assert(h.t == sm as i64);
    } else {
        assert(h.t == lg as i64);
        assert(!(root_in_range(sm, t_min, t_cap) && record_fits(s, r, sm)));
    }
}

/// Two spheres that both intersect a ray, at distinct depths, yield the
/// strictly nearer hit whichever order the list holds them in.
pub proof fn lemma_two_sphere_order_independent(
    s1: Sphere,
    s2: Sphere,
    r: Ray,
    t_min: int,
    t_max: int,
)
    requires
        sphere_hit(s1, r, t_min, t_max) is Some,
        sphere_hit(s2, r, t_min, t_max) is Some,
        (sphere_hit(s1, r, t_min, t_max)->Some_0).t < (sphere_hit(s2, r, t_min, t_max)->Some_0).t,
    ensures
        list_hit(seq![s1, s2], r, t_min, t_max) == Some(sphere_hit(s1, r, t_min, t_max)->Some_0),
        list_hit(seq![s2, s1], r, t_min, t_max) == list_hit(seq![s1, s2], r, t_min, t_max),
{
    let h1 = sphere_hit(s1, r, t_min, t_max)->Some_0;
    let h2 = sphere_hit(s2, r, t_min, t_max)->Some_0;
    // Forward order: after the first hit the second sphere is queried with
    // the interval capped at h1.t, where it cannot produce a hit.
    assert(sphere_hit(s2, r, t_min, h1.t as int) is None) by {
        lemma_roots_ordered(s2, r);
        if sphere_hit(s2, r, t_min, h1.t as int) is Some {
            let sm = small_root(s2, r);
            if root_in_range(sm, t_min, h1.t as int) && record_fits(s2, r, sm) {
                assert(root_in_range(sm, t_min, t_max));
                assert(h2.t == sm as i64);
            } else {
                assert((sphere_hit(s2, r, t_min, h1.t as int)->Some_0).t == large_root(
                    s2,
                    r,
                ) as i64);
                assert(h2.t as int <= large_root(s2, r));
            }
        }
    }
    let fwd = seq![s1, s2];
    assert(fwd.subrange(1, 2) =~= seq![s2]);
    assert(seq![s2].subrange(1, 1) =~= Seq::<Sphere>::empty());
    assert(fwd[0] == s1 && seq![s2][0] == s2);
    assert(list_hit_loop(fwd, r, t_min, t_max, None) == list_hit_loop(
        seq![s2],
        r,
        t_min,
        h1.t as int,
        Some(h1),
    ));
    assert(list_hit_loop(seq![s2], r, t_min, h1.t as int, Some(h1)) == list_hit_loop(
        Seq::<Sphere>::empty(),
        r,
        t_min,
        h1.t as int,
        Some(h1),
    ));
    assert(list_hit_loop(Seq::<Sphere>::empty(), r, t_min, h1.t as int, Some(h1)) == Some(h1));
    // Reverse order: the first sphere still hits under the capped interval,
    // and replaces the farther hit.
    let rev = seq![s2, s1];
    lemma_sphere_hit_narrows(s1, r, t_min, t_max, h2.t as int);
    assert(rev.subrange(1, 2) =~= seq![s1]);
    assert(seq![s1].subrange(1, 1) =~= Seq::<Sphere>::empty());
    assert(rev[0] == s2 && seq![s1][0] == s1);
    assert(list_hit_loop(rev, r, t_min, t_max, None) == list_hit_loop(
        seq![s1],
        r,
        t_min,
        h2.t as int,
        Some(h2),
    ));
    assert(list_hit_loop(seq![s1], r, t_min, h2.t as int, Some(h2)) == list_hit_loop(
        Seq::<Sphere>::empty(),
        r,
        t_min,
        h1.t as int,
        Some(h1),
    ));
    assert(list_hit_loop(Seq::<Sphere>::empty(), r, t_min, h1.t as int, Some(h1)) == Some(h1));
}

/// Bounds on the quadratic's coefficients, their constituent products, the
/// discriminant and its two factors, for a well-formed sphere and ray.
proof fn lemma_quadratic_bounds(s: Sphere, r: Ray)
    requires
        s.wf(),
        r.wf(),
    ensures
        0 <= r.direction.x * r.direction.x <= 0x1000000000000000,
        0 <= r.direction.y * r.direction.y <= 0x1000000000000000,
        0 <= r.direction.z * r.direction.z <= 0x1000000000000000,
        -0x2000000000000000 <= (r.origin.x - s.center.x) * r.direction.x <= 0x2000000000000000,
        -0x2000000000000000 <= (r.origin.y - s.center.y) * r.direction.y <= 0x2000000000000000,
        -0x2000000000000000 <= (r.origin.z - s.center.z) * r.direction.z <= 0x2000000000000000,
        0 <= (r.origin.x - s.center.x) * (r.origin.x - s.center.x) <= 0x4000000000000000,
        0 <= (r.origin.y - s.center.y) * (r.origin.y - s.center.y) <= 0x4000000000000000,
        0 <= (r.origin.z - s.center.z) * (r.origin.z - s.center.z) <= 0x4000000000000000,
        0 <= s.radius * s.radius <= 0x1000000000000000,
        0 <= hit_a(r) <= 0x3000000000000000,
        -0x6000000000000000 <= hit_b(s, r) <= 0x6000000000000000,
        -0xd000000000000000 <= hit_c(s, r) <= 0xd000000000000000,
        -0x24000000000000000000000000000000 <= hit_b(s, r) * hit_b(s, r)
            <= 0x24000000000000000000000000000000,
        -0x27000000000000000000000000000000 <= hit_a(r) * hit_c(s, r)
            <= 0x27000000000000000000000000000000,
        -0x4b000000000000000000000000000000 <= hit_disc(s, r)
            <= 0x4b000000000000000000000000000000,
{
    let bb = BOUND as int;
    assert(bb * bb == 0x1000000000000000) by (nonlinear_arith)
        requires
            bb == 1073741824,
    ;
    lemma_prod_bound2(r.direction.x as int, r.direction.x as int, bb, bb);
    lemma_prod_bound2(r.direction.y as int, r.direction.y as int, bb, bb);
    lemma_prod_bound2(r.direction.z as int, r.direction.z as int, bb, bb);
    assert(r.direction.x * r.direction.x >= 0 && r.direction.y * r.direction.y >= 0 && r.direction.z
        * r.direction.z >= 0 && (r.origin.x - s.center.x) * (r.origin.x - s.center.x) >= 0 && (
    r.origin.y - s.center.y) * (r.origin.y - s.center.y) >= 0 && (r.origin.z - s.center.z) * (
    r.origin.z - s.center.z) >= 0 && s.radius * s.radius >= 0) by (nonlinear_arith);
    lemma_prod_bound2(r.origin.x - s.center.x, r.direction.x as int, 2 * bb, bb);
    lemma_prod_bound2(r.origin.y - s.center.y, r.direction.y as int, 2 * bb, bb);
    lemma_prod_bound2(r.origin.z - s.center.z, r.direction.z as int, 2 * bb, bb);
    lemma_prod_bound2(r.origin.x - s.center.x, r.origin.x - s.center.x, 2 * bb, 2 * bb);
    lemma_prod_bound2(r.origin.y - s.center.y, r.origin.y - s.center.y, 2 * bb, 2 * bb);
    lemma_prod_bound2(r.origin.z - s.center.z, r.origin.z - s.center.z, 2 * bb, 2 * bb);
    lemma_prod_bound2(s.radius as int, s.radius as int, bb, bb);
    assert(2 * bb * bb == 0x2000000000000000 && (2 * bb) * (2 * bb) == 0x4000000000000000)
        by (nonlinear_arith)
        requires
            bb == 1073741824,
    ;
    lemma_prod_bound2(hit_b(s, r), hit_b(s, r), 0x6000000000000000, 0x6000000000000000);
    lemma_prod_bound2(hit_a(r), hit_c(s, r), 0x3000000000000000, 0xd000000000000000);
    assert(0x6000000000000000 * 0x6000000000000000 == 0x24000000000000000000000000000000
        && 0x3000000000000000 * 0xd000000000000000 == 0x27000000000000000000000000000000)
        by (nonlinear_arith);
}

/// A positive discriminant forces a positive quadratic coefficient: a zero
/// direction has a zero dot product with everything, which would make the
/// discriminant zero.
proof fn lemma_positive_disc_positive_a(s: Sphere, r: Ray)
    requires
        hit_disc(s, r) > 0,
    ensures
        hit_a(r) > 0,
{
    assert(hit_a(r) >= 0) by (nonlinear_arith);
    if hit_a(r) == 0 {
        assert(r.direction.x == 0 && r.direction.y == 0 && r.direction.z == 0) by (nonlinear_arith)
            requires
                r.direction.x * r.direction.x + r.direction.y * r.direction.y + r.direction.z
                    * r.direction.z == 0,
        ;
        assert(hit_b(s, r) == 0) by (nonlinear_arith)
            requires
                r.direction.x == 0 && r.direction.y == 0 && r.direction.z == 0,
                hit_b(s, r) == (r.origin.x - s.center.x) * r.direction.x + (r.origin.y - s.center.y)
                    * r.direction.y + (r.origin.z - s.center.z) * r.direction.z,
        ;
        assert(hit_disc(s, r) == 0) by (nonlinear_arith)
            requires
                hit_b(s, r) == 0,
                hit_a(r) == 0,
                hit_disc(s, r) == hit_b(s, r) * hit_b(s, r) - hit_a(r) * hit_c(s, r),
        ;
    }
}

/// The rounded square root of the discriminant, and the root numerators,
/// stay inside `i128`.
proof fn lemma_disc_root_bound(s: Sphere, r: Ray)
    requires
        s.wf(),
        r.wf(),
        hit_disc(s, r) > 0,
    ensures
        0 <= disc_root(s, r) <= 0x9000000000000000,
        -0x2000000000000000000000000 <= (-hit_b(s, r) - disc_root(s, r)) * (SCALE as int)
            <= 0x2000000000000000000000000,
        -0x2000000000000000000000000 <= (-hit_b(s, r) + disc_root(s, r)) * (SCALE as int)
            <= 0x2000000000000000000000000,
{
    lemma_quadratic_bounds(s, r);
    assert(hit_disc(s, r) < (0x9000000000000000 + 1) * (0x9000000000000000 + 1))
        by (nonlinear_arith)
        requires
            hit_disc(s, r) <= 0x4b000000000000000000000000000000,
    ;
    lemma_sqrt_floor_le(hit_disc(s, r) as nat, 0x9000000000000000 as nat);
    lemma_sqrt_floor_bounds(hit_disc(s, r) as nat);
    assert(-0x2000000000000000000000000 <= (-hit_b(s, r) - disc_root(s, r)) * (SCALE as int)
        <= 0x2000000000000000000000000 && -0x2000000000000000000000000 <= (-hit_b(s, r) + disc_root(
        s,
        r,
    )) * (SCALE as int) <= 0x2000000000000000000000000) by (nonlinear_arith)
        requires
            -0x6000000000000000 <= hit_b(s, r) <= 0x6000000000000000,
            0 <= disc_root(s, r) <= 0x9000000000000000,
            SCALE == 1000000i64,
    ;
}

} // verus!
