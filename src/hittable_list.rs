use vstd::prelude::*;
use crate::hittable::HitRecord;
use crate::material::{is_zero, record_wf};
use crate::ray::{Interval, Ray};
use crate::sphere::{discriminant, quad_a, quad_h, root_far, root_near, sphere_hit, Sphere};
use crate::vec3::{lemma_sqrt_floor_exists, sqrt_floor, ONE};

verus! {

/// The scene: spheres in insertion order.
pub struct HittableList {
    pub objects: Vec<Sphere>,
}

/// The nearest-hit scan over `objs`: each member is tested in order within
/// `[iv.min, closest]`, where `closest` is the parameter of the last hit so
/// far (or `iv.max`); a later hit replaces the earlier one.
pub open spec fn list_hit(objs: Seq<Sphere>, r: Ray, iv: Interval) -> Option<HitRecord>
    decreases objs.len(),
{
    if objs.len() == 0 {
        None
    } else {
        let prev = list_hit(objs.drop_last(), r, iv);
        let closest = match prev {
            Some(rec) => rec.t,
            None => iv.max,
        };
        match sphere_hit(objs.last(), r, Interval { min: iv.min, max: closest }) {
            Some(rec) => Some(rec),
            None => prev,
        }
    }
}

impl HittableList {
    pub open spec fn wf(&self) -> bool {
        forall|i: int| 0 <= i < self.objects@.len() ==> (#[trigger] self.objects@[i]).wf()
    }

    pub fn new() -> (r: HittableList)
        ensures
            r.objects@ == Seq::<Sphere>::empty(),
            r.wf(),
    {
        HittableList { objects: Vec::new() }
    }

    pub fn clear(&mut self)
        ensures
            final(self).objects@ == Seq::<Sphere>::empty(),
            final(self).wf(),
    {
        self.objects.clear();
    }

    pub fn add(&mut self, object: Sphere)
        requires
            old(self).wf(),
            object.wf(),
        ensures
            final(self).objects@ == old(self).objects@.push(object),
            final(self).wf(),
    {
        self.objects.push(object);
        assert(forall|i: int|
            0 <= i < self.objects@.len() ==> (#[trigger] self.objects@[i]) == (if i
                < old(self).objects@.len() {
                old(self).objects@[i]
            } else {
                object
            }));
    }

    /// The nearest hit among all members within `ray_t`.
    pub fn hit(&self, r: &Ray, ray_t: Interval) -> (res: Option<HitRecord>)
        requires
            self.wf(),
            r.wf(),
        ensures
            res == list_hit(self.objects@, *r, ray_t),
            res matches Some(rec) ==> record_wf(rec) && !is_zero(r.direction),
    {
        let mut best: Option<HitRecord> = None;
        let mut closest_so_far: i64 = ray_t.max;
        let n: usize = self.objects.len();
        let mut i: usize = 0;
        while i < n
            invariant
                n == self.objects@.len(),
                0 <= i <= n,
                self.wf(),
                r.wf(),
                best == list_hit(self.objects@.take(i as int), *r, ray_t),
                closest_so_far == (match best {
                    Some(rec) => rec.t,
                    None => ray_t.max,
                }),
                best matches Some(rec) ==> record_wf(rec) && !is_zero(r.direction),
            decreases n - i,
        {
            let ghost objs = self.objects@.take(i as int + 1);
            assert(objs.drop_last() == self.objects@.take(i as int));
            assert(objs.last() == self.objects@[i as int]);
            match self.objects[i].hit(r, Interval::new(ray_t.min, closest_so_far)) {
                Some(rec) => {
                    closest_so_far = rec.t;
                    best = Some(rec);
                },
                None => {},
            }
            i = i + 1;
        }
        assert(self.objects@.take(n as int) == self.objects@);
        best
    }
}

/// A hit reported within `iv` lies strictly inside it.
pub proof fn lemma_sphere_hit_inside(s: Sphere, r: Ray, iv: Interval)
    ensures
        sphere_hit(s, r, iv) matches Some(rec) ==> iv.min < rec.t < iv.max,
{
}

/// The smaller root never exceeds the larger.
pub proof fn lemma_roots_ordered(s: Sphere, r: Ray)
    requires
        quad_a(s, r) > 0,
        discriminant(s, r) >= 0,
    ensures
        root_near(s, r) <= root_far(s, r),
{
    lemma_sqrt_floor_exists(discriminant(s, r));
    let sq = sqrt_floor(discriminant(s, r));
    let h = quad_h(s, r);
    vstd::arithmetic::div_mod::lemma_div_is_ordered(
        (ONE as int) * (h - sq),
        (ONE as int) * (h + sq),
        quad_a(s, r),
    );
}

/// Narrowing the upper bound to anything above a reported hit keeps that hit.
pub proof fn lemma_sphere_hit_narrow(s: Sphere, r: Ray, iv: Interval, m: i64)
    requires
        sphere_hit(s, r, iv) matches Some(rec) && rec.t < m,
        m <= iv.max,
    ensures
        sphere_hit(s, r, Interval { min: iv.min, max: m }) == sphere_hit(s, r, iv),
{
}

/// A hit reported within a narrowed interval is also what the full interval reports.
pub proof fn lemma_sphere_hit_widen(s: Sphere, r: Ray, iv: Interval, m: i64)
    requires
        sphere_hit(s, r, Interval { min: iv.min, max: m }) is Some,
        m <= iv.max,
    ensures
        sphere_hit(s, r, Interval { min: iv.min, max: m }) == sphere_hit(s, r, iv),
{
    let d = r.direction;
    assert(d.x * d.x + d.y * d.y + d.z * d.z >= 0) by (nonlinear_arith);
    assert(quad_a(s, r) >= 0);
    if quad_a(s, r) > 0 && discriminant(s, r) >= 0 {
        lemma_roots_ordered(s, r);
    }
}

proof fn lemma_list_hit_facts(objs: Seq<Sphere>, r: Ray, iv: Interval)
    ensures
        list_hit(objs, r, iv) matches Some(rec) ==> iv.min < rec.t < iv.max && exists|j: int|
            0 <= j < objs.len() && #[trigger] sphere_hit(objs[j], r, iv) == Some(rec),
        forall|i: int|
            0 <= i < objs.len() && (#[trigger] sphere_hit(objs[i], r, iv) is Some) ==> (list_hit(
                objs,
                r,
                iv,
            ) matches Some(rec) && rec.t <= sphere_hit(objs[i], r, iv)->0.t),
    decreases objs.len(),
{
    if objs.len() > 0 {
        let pre = objs.drop_last();
        lemma_list_hit_facts(pre, r, iv);
        let prev = list_hit(pre, r, iv);
        let closest = match prev {
            Some(rec) => rec.t,
            None => iv.max,
        };
        let last = objs.last();
        let narrowed = Interval { min: iv.min, max: closest };
        lemma_sphere_hit_inside(last, r, narrowed);
        if sphere_hit(last, r, narrowed) is Some {
            lemma_sphere_hit_widen(last, r, iv, closest);
            assert(sphere_hit(objs[objs.len() - 1], r, iv) == list_hit(objs, r, iv));
        } else if let Some(rec) = prev {
            let j = choose|j: int| 0 <= j < pre.len() && #[trigger] sphere_hit(pre[j], r, iv) == Some(rec);
            assert(objs[j] == pre[j]);
        }
        assert forall|i: int|
            0 <= i < objs.len() && (#[trigger] sphere_hit(objs[i], r, iv) is Some) implies (list_hit(
                objs,
                r,
                iv,
            ) matches Some(rec) && rec.t <= sphere_hit(objs[i], r, iv)->0.t) by {
            let ri = sphere_hit(objs[i], r, iv)->0;
            lemma_sphere_hit_inside(objs[i], r, iv);
            if i == objs.len() - 1 {
                if ri.t < closest {
                    lemma_sphere_hit_narrow(last, r, iv, closest);
                }
            } else {
                assert(objs[i] == pre[i]);
                assert(sphere_hit(pre[i], r, iv) is Some);
            }
        }
    }
}

/// Nearest wins: whatever the order of the members, the scan reports a hit
/// whenever some member is hit within `iv`, the reported hit is one that a
/// member reports on its own within `iv`, and no member is hit nearer.
pub proof fn lemma_nearest_hit(objs: Seq<Sphere>, r: Ray, iv: Interval)
    ensures
        forall|i: int|
            0 <= i < objs.len() && (#[trigger] sphere_hit(objs[i], r, iv) is Some) ==> (list_hit(
                objs,
                r,
                iv,
            ) matches Some(rec) && rec.t <= sphere_hit(objs[i], r, iv)->0.t),
        list_hit(objs, r, iv) matches Some(rec) ==> exists|j: int|
            0 <= j < objs.len() && #[trigger] sphere_hit(objs[j], r, iv) == Some(rec),
        (forall|i: int| 0 <= i < objs.len() ==> #[trigger] sphere_hit(objs[i], r, iv) is None)
            ==> list_hit(objs, r, iv) is None,
{
    lemma_list_hit_facts(objs, r, iv);
}

/// Two spheres on one ray: the nearer one's record is reported, in either
/// order of insertion.
pub proof fn lemma_two_spheres(a: Sphere, b: Sphere, r: Ray, iv: Interval)
    requires
        sphere_hit(a, r, iv) matches Some(ra) && sphere_hit(b, r, iv) matches Some(rb) && ra.t
            < rb.t,
    ensures
        list_hit(seq![a, b], r, iv) == sphere_hit(a, r, iv),
        list_hit(seq![b, a], r, iv) == sphere_hit(a, r, iv),
{
    let ab = seq![a, b];
    let ba = seq![b, a];
    lemma_list_hit_facts(ab, r, iv);
    lemma_list_hit_facts(ba, r, iv);
    assert(ab[0] == a && ab[1] == b);
    assert(ba[0] == b && ba[1] == a);
}

/// Reordering the members does not change the reported hit, so long as
/// members hit at the same parameter report the same record (no tie
/// between different records).
pub proof fn lemma_order_independent(objs1: Seq<Sphere>, objs2: Seq<Sphere>, r: Ray, iv: Interval)
    requires
        forall|i: int| 0 <= i < objs1.len() ==> objs2.contains(#[trigger] objs1[i]),
        forall|j: int| 0 <= j < objs2.len() ==> objs1.contains(#[trigger] objs2[j]),
        forall|i: int, j: int|
            0 <= i < objs1.len() && 0 <= j < objs1.len() && (#[trigger] sphere_hit(objs1[i], r, iv)) is Some
                && (#[trigger] sphere_hit(objs1[j], r, iv)) is Some && sphere_hit(objs1[i], r, iv)->0.t
                == sphere_hit(objs1[j], r, iv)->0.t ==> sphere_hit(objs1[i], r, iv) == sphere_hit(objs1[j], r, iv),
    ensures
        list_hit(objs1, r, iv) == list_hit(objs2, r, iv),
{
    lemma_list_hit_facts(objs1, r, iv);
    lemma_list_hit_facts(objs2, r, iv);
    if let Some(r1) = list_hit(objs1, r, iv) {
        let j1 = choose|j: int| 0 <= j < objs1.len() && #[trigger] sphere_hit(objs1[j], r, iv) == Some(r1);
        assert(objs2.contains(objs1[j1]));
        let k1 = choose|k: int| 0 <= k < objs2.len() && objs2[k] == objs1[j1];
        assert(sphere_hit(objs2[k1], r, iv) is Some);
        let r2 = list_hit(objs2, r, iv)->0;
        let j2 = choose|j: int| 0 <= j < objs2.len() && #[trigger] sphere_hit(objs2[j], r, iv) == Some(r2);
        assert(objs1.contains(objs2[j2]));
        let k2 = choose|k: int| 0 <= k < objs1.len() && objs1[k] == objs2[j2];
        assert(sphere_hit(objs1[k2], r, iv) is Some);
        assert(r1.t <= r2.t);
        assert(r2.t <= r1.t);
    } else if let Some(r2) = list_hit(objs2, r, iv) {
        let j2 = choose|j: int| 0 <= j < objs2.len() && #[trigger] sphere_hit(objs2[j], r, iv) == Some(r2);
        assert(objs1.contains(objs2[j2]));
        let k2 = choose|k: int| 0 <= k < objs1.len() && objs1[k] == objs2[j2];
        assert(sphere_hit(objs1[k2], r, iv) is Some);
    }
}

} // verus!
