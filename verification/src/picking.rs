//! Voxel picking: casts a ray through the grid by the slab method, exactly,
//! and applies add / remove edits at the struck cell.
//!
//! The ray is given in fixed-point form: integer numerators over one
//! positive scale. Every slab comparison is then a comparison of exact
//! rationals, done in integers, so the geometry has no rounding at all.
//! A cell `(x, y, z)` occupies the closed world-space unit cube from
//! `(x, y, z) - WORLD_SIZE / 2` along each axis.

use vstd::prelude::*;

use crate::classify::IVec3;
use crate::classify::dir_at;
use crate::world::Coord;
use crate::world::Voxel;
use crate::world::World;
use crate::world::WorldChanged;

verus! {

/// Bound on the ray's numerators and scale (2^40).
pub const RAY_LIMIT: i64 = 1099511627776;

/// Bound on a box corner coordinate handed to the slab test.
pub const BOX_LIMIT: i64 = 1024;

/// Bound on an entry or exit numerator: |lo * scale| + |origin| at most.
pub const T_LIMIT: i64 = 1026 * 1099511627776;

/// A ray in fixed-point form: the world-space origin is
/// `(ox, oy, oz) / scale` and the direction is `(dx, dy, dz) / scale`.
/// The point at parameter t is `(origin + t * (dx, dy, dz)) / scale`.
#[derive(Clone, Copy, Debug, PartialEq, Eq, Structural)]
pub struct Ray {
    pub ox: i64,
    pub oy: i64,
    pub oz: i64,
    pub dx: i64,
    pub dy: i64,
    pub dz: i64,
    pub scale: i64,
}

impl Ray {
    /// Machine bounds under which every slab comparison fits in 128 bits.
    pub open spec fn wf(self) -> bool {
        &&& 1 <= self.scale <= RAY_LIMIT
        &&& -RAY_LIMIT <= self.ox <= RAY_LIMIT
        &&& -RAY_LIMIT <= self.oy <= RAY_LIMIT
        &&& -RAY_LIMIT <= self.oz <= RAY_LIMIT
        &&& -RAY_LIMIT <= self.dx <= RAY_LIMIT
        &&& -RAY_LIMIT <= self.dy <= RAY_LIMIT
        &&& -RAY_LIMIT <= self.dz <= RAY_LIMIT
    }

    pub fn new(ox: i64, oy: i64, oz: i64, dx: i64, dy: i64, dz: i64, scale: i64) -> (r: Ray)
        ensures
            r == (Ray { ox, oy, oz, dx, dy, dz, scale }),
    {
        Ray { ox, oy, oz, dx, dy, dz, scale }
    }
}

/// The ray's component along one axis lies within the slab `[lo, lo + 1]`
/// (in world units, so `[lo * s, (lo + 1) * s]` in numerators) at the
/// rational parameter `tn / td`, `td > 0`.
pub open spec fn axis_in_slab(o: int, d: int, s: int, lo: int, tn: int, td: int) -> bool {
    lo * s * td <= o * td + tn * d && o * td + tn * d <= (lo + 1) * s * td
}

/// The ray's point at parameter `tn / td` lies in the closed unit box with
/// minimum corner `(lox, loy, loz)`.
pub open spec fn in_box(ray: Ray, lox: int, loy: int, loz: int, tn: int, td: int) -> bool {
    &&& axis_in_slab(ray.ox as int, ray.dx as int, ray.scale as int, lox, tn, td)
    &&& axis_in_slab(ray.oy as int, ray.dy as int, ray.scale as int, loy, tn, td)
    &&& axis_in_slab(ray.oz as int, ray.dz as int, ray.scale as int, loz, tn, td)
}

/// `tn / td` is the entry parameter of the ray into the box: the least
/// rational parameter at which the ray's point lies in the box.
pub open spec fn is_entry(ray: Ray, lox: int, loy: int, loz: int, tn: int, td: int) -> bool {
    &&& td > 0
    &&& in_box(ray, lox, loy, loz, tn, td)
    &&& forall|un: int, ud: int|
        ud > 0 && un * td < tn * ud ==> !#[trigger] in_box(ray, lox, loy, loz, un, ud)
}

/// The ray strikes the box at a non-negative parameter coming from outside:
/// its entry parameter exists and is non-negative.
pub open spec fn box_hit(ray: Ray, lox: int, loy: int, loz: int) -> bool {
    exists|tn: int, td: int| #[trigger] is_entry(ray, lox, loy, loz, tn, td) && tn >= 0
}

/// Origin numerator of the ray along one axis (0 = x, 1 = y, 2 = z).
pub open spec fn axis_o(ray: Ray, a: int) -> int {
    if a == 0 {
        ray.ox as int
    } else if a == 1 {
        ray.oy as int
    } else {
        ray.oz as int
    }
}

/// Direction numerator of the ray along one axis.
pub open spec fn axis_d(ray: Ray, a: int) -> int {
    if a == 0 {
        ray.dx as int
    } else if a == 1 {
        ray.dy as int
    } else {
        ray.dz as int
    }
}

/// Box minimum along one axis.
pub open spec fn axis_lo(lox: int, loy: int, loz: int, a: int) -> int {
    if a == 0 {
        lox
    } else if a == 1 {
        loy
    } else {
        loz
    }
}

/// Numerator of the parameter at which the ray enters the slab `[lo, lo+1]`
/// along an axis with nonzero direction; the denominator is `|d|`.
pub open spec fn ent_num(o: int, d: int, s: int, lo: int) -> int {
    if d > 0 {
        lo * s - o
    } else {
        o - (lo + 1) * s
    }
}

/// Numerator of the parameter at which the ray leaves the slab.
pub open spec fn exit_num(o: int, d: int, s: int, lo: int) -> int {
    if d > 0 {
        (lo + 1) * s - o
    } else {
        o - lo * s
    }
}

/// Positive denominator shared by the slab entry and exit parameters.
pub open spec fn ent_den(d: int) -> int {
    if d > 0 {
        d
    } else {
        -d
    }
}

/// The outward normal of the face through which a ray with direction
/// component `d` enters an axis slab: it opposes the direction of travel.
pub open spec fn axis_normal(a: int, d: int) -> IVec3 {
    if a == 0 {
        if d > 0 {
            dir_at(1)
        } else {
            dir_at(0)
        }
    } else if a == 1 {
        if d > 0 {
            dir_at(3)
        } else {
            dir_at(2)
        }
    } else {
        if d > 0 {
            dir_at(5)
        } else {
            dir_at(4)
        }
    }
}

/// Entry numerator of the box slab along axis `a`.
pub open spec fn axis_ent_num(ray: Ray, lox: int, loy: int, loz: int, a: int) -> int {
    ent_num(axis_o(ray, a), axis_d(ray, a), ray.scale as int, axis_lo(lox, loy, loz, a))
}

/// Entry denominator of the box slab along axis `a`.
pub open spec fn axis_ent_den(ray: Ray, a: int) -> int {
    ent_den(axis_d(ray, a))
}

/// The normal reported for the box belongs to axis `a`: that axis has a
/// nonzero direction, its slab entry is the latest (ties go to the lowest
/// axis), and the entry parameter is the axis's own.
pub open spec fn chosen_axis(ray: Ray, lox: int, loy: int, loz: int, a: int, tn: int, td: int) -> bool {
    &&& 0 <= a < 3
    &&& axis_d(ray, a) != 0
    &&& tn == axis_ent_num(ray, lox, loy, loz, a)
    &&& td == axis_ent_den(ray, a)
    &&& forall|b: int|
        0 <= b < 3 && b != a && #[trigger] axis_d(ray, b) != 0 ==> {
            let bn = axis_ent_num(ray, lox, loy, loz, b);
            let bd = axis_ent_den(ray, b);
            if b < a {
                bn * td < tn * bd
            } else {
                bn * td <= tn * bd
            }
        }
}

/// The face normal a hit on this box reports, together with its entry
/// parameter.
pub open spec fn hit_face(ray: Ray, lox: int, loy: int, loz: int, n: IVec3, tn: int, td: int) -> bool {
    exists|a: int|
        #[trigger] chosen_axis(ray, lox, loy, loz, a, tn, td) && n == axis_normal(
            a,
            axis_d(ray, a),
        )
}

// ---------- rational comparison lemmas ----------

/// With positive denominators, `a <= b` and `b <= c` give `a <= c`
/// (fractions compared by cross-multiplication).
proof fn lemma_rat_le_trans(an: int, ad: int, bn: int, bd: int, cn: int, cd: int)
    requires
        ad > 0,
        bd > 0,
        cd > 0,
        an * bd <= bn * ad,
        bn * cd <= cn * bd,
    ensures
        an * cd <= cn * ad,
{
    assert(an * cd <= cn * ad) by (nonlinear_arith)
        requires
            ad > 0,
            bd > 0,
            cd > 0,
            an * bd <= bn * ad,
            bn * cd <= cn * bd,
    ;
}

/// With positive denominators, `a < b` and `b <= c` give `a < c`.
proof fn lemma_rat_lt_le_trans(an: int, ad: int, bn: int, bd: int, cn: int, cd: int)
    requires
        ad > 0,
        bd > 0,
        cd > 0,
        an * bd < bn * ad,
        bn * cd <= cn * bd,
    ensures
        an * cd < cn * ad,
{
    assert(an * cd < cn * ad) by (nonlinear_arith)
        requires
            ad > 0,
            bd > 0,
            cd > 0,
            an * bd < bn * ad,
            bn * cd <= cn * bd,
    ;
}

/// With positive denominators, `a <= b` and `b < c` give `a < c`.
proof fn lemma_rat_le_lt_trans(an: int, ad: int, bn: int, bd: int, cn: int, cd: int)
    requires
        ad > 0,
        bd > 0,
        cd > 0,
        an * bd <= bn * ad,
        bn * cd < cn * bd,
    ensures
        an * cd < cn * ad,
{
    assert(an * cd < cn * ad) by (nonlinear_arith)
        requires
            ad > 0,
            bd > 0,
            cd > 0,
            an * bd <= bn * ad,
            bn * cd < cn * bd,
    ;
}

// ---------- exact rational comparisons (executable) ----------

/// Whether `an / ad < bn / bd`, by cross-multiplication in 128 bits.
fn rat_lt(an: i64, ad: i64, bn: i64, bd: i64) -> (r: bool)
    requires
        0 < ad <= T_LIMIT,
        0 < bd <= T_LIMIT,
        -T_LIMIT <= an <= T_LIMIT,
        -T_LIMIT <= bn <= T_LIMIT,
    ensures
        r == (an * bd < bn * ad),
{
    proof {
        lemma_mul_abs_bound(an as int, bd as int, T_LIMIT as int);
        lemma_mul_abs_bound(bn as int, ad as int, T_LIMIT as int);
    }
    (an as i128) * (bd as i128) < (bn as i128) * (ad as i128)
}

// ---------- the slab method, one axis at a time ----------

/// For a nonzero direction component, slab membership at `tn / td` is
/// exactly "entry parameter <= tn / td <= exit parameter".
proof fn lemma_slab_iff(o: int, d: int, s: int, lo: int, tn: int, td: int)
    requires
        td > 0,
        d != 0,
    ensures
        axis_in_slab(o, d, s, lo, tn, td) == (ent_num(o, d, s, lo) * td <= tn * ent_den(d)
            && tn * ent_den(d) <= exit_num(o, d, s, lo) * td),
{
    if d > 0 {
        assert((lo * s * td <= o * td + tn * d) == ((lo * s - o) * td <= tn * d))
            by (nonlinear_arith);
        assert((o * td + tn * d <= (lo + 1) * s * td) == (tn * d <= ((lo + 1) * s - o) * td))
            by (nonlinear_arith);
    } else {
        assert((lo * s * td <= o * td + tn * d) == (tn * (-d) <= (o - lo * s) * td))
            by (nonlinear_arith);
        assert((o * td + tn * d <= (lo + 1) * s * td) == ((o - (lo + 1) * s) * td <= tn * (-d)))
            by (nonlinear_arith);
    }
}

/// For a zero direction component, slab membership does not depend on the
/// parameter: the origin itself must lie within the slab.
proof fn lemma_slab_parallel(o: int, d: int, s: int, lo: int, tn: int, td: int)
    requires
        td > 0,
        d == 0,
    ensures
        axis_in_slab(o, d, s, lo, tn, td) == (lo * s <= o && o <= (lo + 1) * s),
{
    assert((lo * s * td <= o * td) == (lo * s <= o)) by (nonlinear_arith)
        requires
            td > 0,
    ;
    assert((o * td <= (lo + 1) * s * td) == (o <= (lo + 1) * s)) by (nonlinear_arith)
        requires
            td > 0,
    ;
    assert(o * td + tn * d == o * td) by (nonlinear_arith)
        requires
            d == 0,
    ;
}

/// Running lower bound of the parameter range: entry so far, with the face
/// normal that produced it; `None` stands for "unbounded below".
spec fn ge_min(tmin: Option<(i64, i64, IVec3)>, tn: int, td: int) -> bool {
    match tmin {
        None => true,
        Some(p) => (p.0 as int) * td <= tn * (p.1 as int),
    }
}

/// Running upper bound of the parameter range; `None` is "unbounded above".
spec fn le_max(tmax: Option<(i64, i64)>, tn: int, td: int) -> bool {
    match tmax {
        None => true,
        Some(q) => tn * (q.1 as int) <= (q.0 as int) * td,
    }
}

/// `tn / td` lies in the running parameter range.
spec fn in_range(
    tmin: Option<(i64, i64, IVec3)>,
    tmax: Option<(i64, i64)>,
    tn: int,
    td: int,
) -> bool {
    ge_min(tmin, tn, td) && le_max(tmax, tn, td)
}

spec fn min_ok(tmin: Option<(i64, i64, IVec3)>) -> bool {
    match tmin {
        None => true,
        Some(p) => -T_LIMIT <= p.0 <= T_LIMIT && 0 < p.1 <= RAY_LIMIT,
    }
}

spec fn max_ok(tmax: Option<(i64, i64)>) -> bool {
    match tmax {
        None => true,
        Some(q) => -T_LIMIT <= q.0 <= T_LIMIT && 0 < q.1 <= RAY_LIMIT,
    }
}

/// The running range is nonempty (lower bound at most upper bound).
spec fn state_nonempty(tmin: Option<(i64, i64, IVec3)>, tmax: Option<(i64, i64)>) -> bool {
    match (tmin, tmax) {
        (Some(p), Some(q)) => (p.0 as int) * (q.1 as int) <= (q.0 as int) * (p.1 as int),
        _ => true,
    }
}

/// How one axis updates the running entry: a nonzero axis whose entry
/// parameter strictly exceeds the running one replaces it (so on ties the
/// earlier axis keeps the normal); a zero axis leaves it alone.
spec fn min_step(
    o: int,
    d: int,
    s: int,
    lo: int,
    neg_n: IVec3,
    pos_n: IVec3,
    tmin: Option<(i64, i64, IVec3)>,
    tmin2: Option<(i64, i64, IVec3)>,
) -> bool {
    if d == 0 {
        tmin2 == tmin
    } else {
        let en = ent_num(o, d, s, lo);
        let ed = ent_den(d);
        let take_new = match tmin {
            None => true,
            Some(p) => (p.0 as int) * ed < en * (p.1 as int),
        };
        if take_new {
            match tmin2 {
                Some(p2) => (p2.0 as int) == en && (p2.1 as int) == ed && p2.2 == (if d > 0 {
                    neg_n
                } else {
                    pos_n
                }),
                None => false,
            }
        } else {
            tmin2 == tmin
        }
    }
}

/// One axis of the slab walk: narrows the running parameter range by this
/// axis's slab, or reports that the intersection became empty.
fn slab_axis(
    o: i64,
    d: i64,
    s: i64,
    lo: i64,
    neg_n: IVec3,
    pos_n: IVec3,
    tmin: Option<(i64, i64, IVec3)>,
    tmax: Option<(i64, i64)>,
) -> (res: Option<(Option<(i64, i64, IVec3)>, Option<(i64, i64)>)>)
    requires
        1 <= s <= RAY_LIMIT,
        -RAY_LIMIT <= o <= RAY_LIMIT,
        -RAY_LIMIT <= d <= RAY_LIMIT,
        -BOX_LIMIT <= lo <= BOX_LIMIT,
        min_ok(tmin),
        max_ok(tmax),
        state_nonempty(tmin, tmax),
    ensures
        res is None ==> forall|tn: int, td: int|
            td > 0 ==> !(in_range(tmin, tmax, tn, td) && #[trigger] axis_in_slab(
                o as int,
                d as int,
                s as int,
                lo as int,
                tn,
                td,
            )),
        res matches Some((tmin2, tmax2)) ==> {
            &&& min_ok(tmin2)
            &&& max_ok(tmax2)
            &&& state_nonempty(tmin2, tmax2)
            &&& min_step(o as int, d as int, s as int, lo as int, neg_n, pos_n, tmin, tmin2)
            &&& forall|tn: int, td: int|
                td > 0 ==> (#[trigger] in_range(tmin2, tmax2, tn, td) == (in_range(
                    tmin,
                    tmax,
                    tn,
                    td,
                ) && axis_in_slab(o as int, d as int, s as int, lo as int, tn, td)))
        },
{
    proof {
        assert(-1025 * RAY_LIMIT <= (lo as int) * (s as int) <= 1025 * RAY_LIMIT
            && -1025 * RAY_LIMIT <= ((lo as int) + 1) * (s as int) <= 1025 * RAY_LIMIT)
            by (nonlinear_arith)
            requires
                -BOX_LIMIT <= lo <= BOX_LIMIT,
                1 <= s <= RAY_LIMIT,
                BOX_LIMIT == 1024i64,
        ;
    }
    let los: i64 = lo * s;
    let his: i64 = (lo + 1) * s;
    if d == 0 {
        if o < los || o > his {
            proof {
                assert forall|tn: int, td: int| td > 0 implies !(in_range(tmin, tmax, tn, td)
                    && #[trigger] axis_in_slab(o as int, d as int, s as int, lo as int, tn, td)) by {
                    lemma_slab_parallel(o as int, d as int, s as int, lo as int, tn, td);
                }
            }
            return None;
        }
        proof {
            assert forall|tn: int, td: int| td > 0 implies (#[trigger] in_range(tmin, tmax, tn, td)
                == (in_range(tmin, tmax, tn, td) && axis_in_slab(
                o as int,
                d as int,
                s as int,
                lo as int,
                tn,
                td,
            ))) by {
                lemma_slab_parallel(o as int, d as int, s as int, lo as int, tn, td);
            }
        }
        return Some((tmin, tmax));
    }
    // entry and exit parameters of this slab, with positive denominator
    let (en, exn, ed, n_ent): (i64, i64, i64, IVec3) = if d > 0 {
        (los - o, his - o, d, neg_n)
    } else {
        (o - his, o - los, -d, pos_n)
    };
    let new_min: (i64, i64, IVec3) = match tmin {
        None => (en, ed, n_ent),
        Some(p) => {
            if rat_lt(p.0, p.1, en, ed) {
                (en, ed, n_ent)
            } else {
                p
            }
        },
    };
    let new_max: (i64, i64) = match tmax {
        None => (exn, ed),
        Some(q) => {
            if rat_lt(exn, ed, q.0, q.1) {
                (exn, ed)
            } else {
                q
            }
        },
    };
    proof {
        assert(en as int == ent_num(o as int, d as int, s as int, lo as int));
        assert(exn as int == exit_num(o as int, d as int, s as int, lo as int));
        assert(ed as int == ent_den(d as int));
        assert forall|tn: int, td: int| td > 0 implies (#[trigger] in_range(
            Some(new_min),
            Some(new_max),
            tn,
            td,
        ) == (in_range(tmin, tmax, tn, td) && axis_in_slab(
            o as int,
            d as int,
            s as int,
            lo as int,
            tn,
            td,
        ))) by {
            lemma_slab_iff(o as int, d as int, s as int, lo as int, tn, td);
            // lower bound: new_min is the larger of the old bound and the entry
            match tmin {
                None => {},
                Some(p) => {
                    if (p.0 as int) * (ed as int) < (en as int) * (p.1 as int) {
                        // entry took over; old bound follows from it
                        if (en as int) * td <= tn * (ed as int) {
                            lemma_rat_lt_le_trans(
                                p.0 as int,
                                p.1 as int,
                                en as int,
                                ed as int,
                                tn,
                                td,
                            );
                        }
                    } else {
                        // old bound kept; the entry follows from it
                        if (p.0 as int) * td <= tn * (p.1 as int) {
                            lemma_rat_le_trans(
                                en as int,
                                ed as int,
                                p.0 as int,
                                p.1 as int,
                                tn,
                                td,
                            );
                        }
                    }
                },
            }
            // upper bound: new_max is the smaller of the old bound and the exit
            match tmax {
                None => {},
                Some(q) => {
                    if (exn as int) * (q.1 as int) < (q.0 as int) * (ed as int) {
                        if tn * (ed as int) <= (exn as int) * td {
                            lemma_rat_le_lt_trans(
                                tn,
                                td,
                                exn as int,
                                ed as int,
                                q.0 as int,
                                q.1 as int,
                            );
                        }
                    } else {
                        if tn * (q.1 as int) <= (q.0 as int) * td {
                            lemma_rat_le_trans(
                                tn,
                                td,
                                q.0 as int,
                                q.1 as int,
                                exn as int,
                                ed as int,
                            );
                        }
                    }
                },
            }
        }
    }
    if rat_lt(new_max.0, new_max.1, new_min.0, new_min.1) {
        proof {
            assert forall|tn: int, td: int| td > 0 implies !(in_range(tmin, tmax, tn, td)
                && #[trigger] axis_in_slab(o as int, d as int, s as int, lo as int, tn, td)) by {
                if in_range(tmin, tmax, tn, td) && axis_in_slab(
                    o as int,
                    d as int,
                    s as int,
                    lo as int,
                    tn,
                    td,
                ) {
                    assert(in_range(Some(new_min), Some(new_max), tn, td));
                    lemma_rat_le_trans(
                        new_min.0 as int,
                        new_min.1 as int,
                        tn,
                        td,
                        new_max.0 as int,
                        new_max.1 as int,
                    );
                }
            }
        }
        return None;
    }
    Some((Some(new_min), Some(new_max)))
}

/// Ray versus axis-aligned unit box with minimum corner `(lox, loy, loz)`,
/// by the slab method, exactly. Returns the entry parameter of the ray into
/// the box as a rational `(numerator, denominator)`, and the outward normal
/// of the face entered; `None` when the ray's line misses the box (or the
/// direction is the zero vector).
pub fn ray_aabb(ray: &Ray, lox: i64, loy: i64, loz: i64) -> (res: Option<(i64, i64, IVec3)>)
    requires
        ray.wf(),
        -BOX_LIMIT <= lox <= BOX_LIMIT,
        -BOX_LIMIT <= loy <= BOX_LIMIT,
        -BOX_LIMIT <= loz <= BOX_LIMIT,
    ensures
        res matches Some((tn, td, n)) ==> {
            &&& 0 < td <= RAY_LIMIT
            &&& -T_LIMIT <= tn <= T_LIMIT
            &&& is_entry(*ray, lox as int, loy as int, loz as int, tn as int, td as int)
            &&& hit_face(*ray, lox as int, loy as int, loz as int, n, tn as int, td as int)
        },
        res is None ==> (ray.dx == 0 && ray.dy == 0 && ray.dz == 0) || (forall|tn: int, td: int|
            td > 0 ==> !#[trigger] in_box(*ray, lox as int, loy as int, loz as int, tn, td)),
{
    let n_xn = IVec3 { x: -1, y: 0, z: 0 };
    let n_xp = IVec3 { x: 1, y: 0, z: 0 };
    let n_yn = IVec3 { x: 0, y: -1, z: 0 };
    let n_yp = IVec3 { x: 0, y: 1, z: 0 };
    let n_zn = IVec3 { x: 0, y: 0, z: -1 };
    let n_zp = IVec3 { x: 0, y: 0, z: 1 };

    let step1 = slab_axis(ray.ox, ray.dx, ray.scale, lox, n_xn, n_xp, None, None);
    let (m1, x1): (Option<(i64, i64, IVec3)>, Option<(i64, i64)>) = match step1 {
        None => {
            proof {
                assert forall|tn: int, td: int| td > 0 implies !#[trigger] in_box(
                    *ray,
                    lox as int,
                    loy as int,
                    loz as int,
                    tn,
                    td,
                ) by {
                    assert(in_range(None, None, tn, td));
                }
            }
            return None;
        },
        Some(st) => st,
    };
    let step2 = slab_axis(ray.oy, ray.dy, ray.scale, loy, n_yn, n_yp, m1, x1);
    let (m2, x2): (Option<(i64, i64, IVec3)>, Option<(i64, i64)>) = match step2 {
        None => {
            proof {
                assert forall|tn: int, td: int| td > 0 implies !#[trigger] in_box(
                    *ray,
                    lox as int,
                    loy as int,
                    loz as int,
                    tn,
                    td,
                ) by {
                    assert(in_range(None, None, tn, td));
                    if in_box(*ray, lox as int, loy as int, loz as int, tn, td) {
                        assert(in_range(m1, x1, tn, td));
                    }
                }
            }
            return None;
        },
        Some(st) => st,
    };
    let step3 = slab_axis(ray.oz, ray.dz, ray.scale, loz, n_zn, n_zp, m2, x2);
    let (m3, x3): (Option<(i64, i64, IVec3)>, Option<(i64, i64)>) = match step3 {
        None => {
            proof {
                assert forall|tn: int, td: int| td > 0 implies !#[trigger] in_box(
                    *ray,
                    lox as int,
                    loy as int,
                    loz as int,
                    tn,
                    td,
                ) by {
                    assert(in_range(None, None, tn, td));
                    if in_box(*ray, lox as int, loy as int, loz as int, tn, td) {
                        assert(in_range(m1, x1, tn, td));
                        assert(in_range(m2, x2, tn, td));
                    }
                }
            }
            return None;
        },
        Some(st) => st,
    };
    match m3 {
        None => {
            // the running entry stays unbounded only while every axis is
            // parallel: a zero direction vector
            proof {
                assert(ray.dx == 0 && ray.dy == 0 && ray.dz == 0);
            }
            None
        },
        Some(p) => {
            proof {
                let gx = lox as int;
                let gy = loy as int;
                let gz = loz as int;
                let tn = p.0 as int;
                let td = p.1 as int;
                // the entry itself lies in the final range, hence in the box
                assert(ge_min(m3, tn, td)) by (nonlinear_arith)
                    requires
                        td > 0,
                        m3 == Some(p),
                        tn == p.0 as int,
                        td == p.1 as int,
                ;
                assert(in_range(m3, x3, tn, td));
                assert(in_range(m2, x2, tn, td) && axis_in_slab(
                    ray.oz as int,
                    ray.dz as int,
                    ray.scale as int,
                    gz,
                    tn,
                    td,
                ));
                assert(in_box(*ray, gx, gy, gz, tn, td));
                // nothing below the entry lies in the box
                assert forall|un: int, ud: int| ud > 0 && un * td < tn * ud implies !#[trigger] in_box(
                    *ray,
                    gx,
                    gy,
                    gz,
                    un,
                    ud,
                ) by {
                    if in_box(*ray, gx, gy, gz, un, ud) {
                        assert(in_range(None, None, un, ud));
                        assert(in_range(m1, x1, un, ud));
                        assert(in_range(m2, x2, un, ud));
                        assert(in_range(m3, x3, un, ud));
                    }
                }
                lemma_chosen_axis(*ray, gx, gy, gz, m1, m2, m3, n_xn, n_xp, n_yn, n_yp, n_zn, n_zp);
            }
            Some((p.0, p.1, p.2))
        },
    }
}

/// Reconstructs, from the three per-axis steps, which axis owns the final
/// entry parameter and its face normal.
proof fn lemma_chosen_axis(
    ray: Ray,
    gx: int,
    gy: int,
    gz: int,
    m1: Option<(i64, i64, IVec3)>,
    m2: Option<(i64, i64, IVec3)>,
    m3: Option<(i64, i64, IVec3)>,
    n_xn: IVec3,
    n_xp: IVec3,
    n_yn: IVec3,
    n_yp: IVec3,
    n_zn: IVec3,
    n_zp: IVec3,
)
    requires
        ray.wf(),
        n_xn == dir_at(1) && n_xp == dir_at(0),
        n_yn == dir_at(3) && n_yp == dir_at(2),
        n_zn == dir_at(5) && n_zp == dir_at(4),
        min_ok(m1),
        min_ok(m2),
        min_ok(m3),
        min_step(ray.ox as int, ray.dx as int, ray.scale as int, gx, n_xn, n_xp, None, m1),
        min_step(ray.oy as int, ray.dy as int, ray.scale as int, gy, n_yn, n_yp, m1, m2),
        min_step(ray.oz as int, ray.dz as int, ray.scale as int, gz, n_zn, n_zp, m2, m3),
        m3 is Some,
    ensures
        hit_face(
            ray,
            gx,
            gy,
            gz,
            m3->Some_0.2,
            m3->Some_0.0 as int,
            m3->Some_0.1 as int,
        ),
{
    let s = ray.scale as int;
    let dx = ray.dx as int;
    let dy = ray.dy as int;
    let dz = ray.dz as int;
    let e0 = ent_num(ray.ox as int, dx, s, gx);
    let d0 = ent_den(dx);
    let e1 = ent_num(ray.oy as int, dy, s, gy);
    let d1 = ent_den(dy);
    let e2 = ent_num(ray.oz as int, dz, s, gz);
    let d2 = ent_den(dz);
    let p = m3->Some_0;
    let tn = p.0 as int;
    let td = p.1 as int;
    assert(axis_d(ray, 0) == dx && axis_d(ray, 1) == dy && axis_d(ray, 2) == dz);
    assert(axis_ent_num(ray, gx, gy, gz, 0) == e0 && axis_ent_den(ray, 0) == d0);
    assert(axis_ent_num(ray, gx, gy, gz, 1) == e1 && axis_ent_den(ray, 1) == d1);
    assert(axis_ent_num(ray, gx, gy, gz, 2) == e2 && axis_ent_den(ray, 2) == d2);
    if dz != 0 && (m2 is None || (m2->Some_0.0 as int) * d2 < e2 * (m2->Some_0.1 as int)) {
        // the z slab owns the entry
        assert(tn == e2 && td == d2 && p.2 == axis_normal(2, dz));
        if dx != 0 {
            // x contributed its entry to m1, which m2 dominates
            let q1 = m1->Some_0;
            assert((q1.0 as int) == e0 && (q1.1 as int) == d0);
            if m2 == m1 {
                lemma_rat_lt_le_trans(e0, d0, e2, d2, e2, d2);
            } else {
                let q2 = m2->Some_0;
                // m2 took y's entry, which exceeded m1
                lemma_rat_lt_le_trans(e0, d0, q2.0 as int, q2.1 as int, e2, d2);
            }
            assert(e0 * td < tn * d0);
        }
        if dy != 0 {
            // y's entry is at most m2, which z exceeded
            let q2 = m2->Some_0;
            assert(e1 * (q2.1 as int) <= (q2.0 as int) * d1);
            lemma_rat_le_lt_trans(e1, d1, q2.0 as int, q2.1 as int, e2, d2);
            assert(e1 * td < tn * d1);
        }
        assert(chosen_axis(ray, gx, gy, gz, 2, tn, td));
    } else {
        // z left the running entry alone
        assert(m3 == m2);
        if dy != 0 && (m1 is None || (m1->Some_0.0 as int) * d1 < e1 * (m1->Some_0.1 as int)) {
            // the y slab owns the entry
            assert(tn == e1 && td == d1 && p.2 == axis_normal(1, dy));
            if dx != 0 {
                let q1 = m1->Some_0;
                assert((q1.0 as int) == e0 && (q1.1 as int) == d0);
                assert(e0 * td < tn * d0);
            }
            if dz != 0 {
                // z did not take over: its entry is at most the final one
                assert(e2 * td <= tn * d2);
            }
            assert(chosen_axis(ray, gx, gy, gz, 1, tn, td));
        } else {
            // the x slab owns the entry
            assert(m2 == m1);
            assert(dx != 0);
            assert(tn == e0 && td == d0 && p.2 == axis_normal(0, dx));
            if dy != 0 {
                assert(e1 * td <= tn * d1);
            }
            if dz != 0 {
                assert(e2 * td <= tn * d2);
            }
            assert(chosen_axis(ray, gx, gy, gz, 0, tn, td));
        }
    }
}

// ---------- scanning the grid for the nearest struck voxel ----------

/// The cell holds something other than air.
pub open spec fn cell_occ(w: World, x: int, y: int, z: int) -> bool {
    w.vox_at(x, y, z) != Voxel::Air
}

/// The world-space box of cell `(x, y, z)` is the unit cube with minimum
/// corner `(x - 4, y - 4, z - 4)`: the grid is centered on the origin.
pub open spec fn cell_entry(ray: Ray, x: int, y: int, z: int, tn: int, td: int) -> bool {
    is_entry(ray, x - 4, y - 4, z - 4, tn, td)
}

/// The ray strikes this cell's box at a non-negative entry parameter.
pub open spec fn cell_hit(ray: Ray, x: int, y: int, z: int) -> bool {
    exists|tn: int, td: int| #[trigger] cell_entry(ray, x, y, z, tn, td) && tn >= 0
}

/// Scan position of a cell: the order in which the caster visits them.
pub open spec fn scan_idx(x: int, y: int, z: int) -> int {
    y * 64 + z * 8 + x
}

/// A hit reported by the voxel ray caster.
#[derive(Clone, Copy, Debug, PartialEq, Eq, Structural)]
pub struct RayHit {
    pub coord: Coord,
    /// Outward unit normal of the struck face, in voxel coordinates.
    pub normal: IVec3,
    /// Entry parameter of the ray into the cell, as a rational
    /// `t_num / t_den` with positive denominator.
    pub t_num: i64,
    pub t_den: i64,
}

/// The hit's own facts: an occupied in-bounds cell, a non-negative entry
/// parameter into its box, and the face normal of that entry.
pub open spec fn hit_props(w: World, ray: Ray, h: RayHit) -> bool {
    let cx = h.coord.x as int;
    let cy = h.coord.y as int;
    let cz = h.coord.z as int;
    &&& 0 <= cx < 8 && 0 <= cy < 8 && 0 <= cz < 8
    &&& cell_occ(w, cx, cy, cz)
    &&& -T_LIMIT <= h.t_num <= T_LIMIT
    &&& 0 < h.t_den <= RAY_LIMIT
    &&& 0 <= h.t_num
    &&& cell_entry(ray, cx, cy, cz, h.t_num as int, h.t_den as int)
    &&& hit_face(ray, cx - 4, cy - 4, cz - 4, h.normal, h.t_num as int, h.t_den as int)
}

/// Among the cells before `bound` in scan order, none that is occupied is
/// struck earlier than this hit, and at an equal parameter the hit's cell
/// comes no later in scan order.
pub open spec fn hit_min_upto(w: World, ray: Ray, h: RayHit, bound: int) -> bool {
    forall|x: int, y: int, z: int, un: int, ud: int|
        0 <= x < 8 && 0 <= y < 8 && 0 <= z < 8 && scan_idx(x, y, z) < bound && cell_occ(w, x, y, z)
            && ud > 0 && un >= 0 && #[trigger] cell_entry(ray, x, y, z, un, ud) ==> {
            &&& (h.t_num as int) * ud <= un * (h.t_den as int)
            &&& ((h.t_num as int) * ud == un * (h.t_den as int) ==> scan_idx(
                h.coord.x as int,
                h.coord.y as int,
                h.coord.z as int,
            ) <= scan_idx(x, y, z))
        }
}

/// The hit the caster reports: the occupied cell with the least
/// non-negative entry parameter, ties resolved by scan order.
pub open spec fn is_nearest_hit(w: World, ray: Ray, h: RayHit) -> bool {
    hit_props(w, ray, h) && hit_min_upto(w, ray, h, 512)
}

/// Loop knowledge after the first `bound` cells in scan order.
spec fn nearest_upto(w: World, ray: Ray, best: Option<RayHit>, bound: int) -> bool {
    match best {
        None => forall|x: int, y: int, z: int|
            0 <= x < 8 && 0 <= y < 8 && 0 <= z < 8 && scan_idx(x, y, z) < bound
                && #[trigger] cell_occ(w, x, y, z) ==> !cell_hit(ray, x, y, z),
        Some(h) => hit_props(w, ray, h) && scan_idx(
            h.coord.x as int,
            h.coord.y as int,
            h.coord.z as int,
        ) < bound && hit_min_upto(w, ray, h, bound),
    }
}

/// A ray with the zero direction vector enters no box: the box membership
/// of its one point does not depend on the parameter, so no least parameter
/// exists.
proof fn lemma_zero_dir_no_entry(ray: Ray, gx: int, gy: int, gz: int, tn: int, td: int)
    requires
        ray.dx == 0 && ray.dy == 0 && ray.dz == 0,
    ensures
        !is_entry(ray, gx, gy, gz, tn, td),
{
    if is_entry(ray, gx, gy, gz, tn, td) {
        assert((tn - td) * td < tn * td && td > 0) by (nonlinear_arith)
            requires
                td > 0,
        ;
        assert(forall|un: int, ud: int|
            ud > 0 ==> (#[trigger] in_box(ray, gx, gy, gz, un, ud) == in_box(
                ray,
                gx,
                gy,
                gz,
                0,
                1,
            ))) by {
            assert forall|un: int, ud: int| ud > 0 implies (#[trigger] in_box(
                ray,
                gx,
                gy,
                gz,
                un,
                ud,
            ) == in_box(ray, gx, gy, gz, 0, 1)) by {
                lemma_slab_parallel(ray.ox as int, 0, ray.scale as int, gx, un, ud);
                lemma_slab_parallel(ray.oy as int, 0, ray.scale as int, gy, un, ud);
                lemma_slab_parallel(ray.oz as int, 0, ray.scale as int, gz, un, ud);
                lemma_slab_parallel(ray.ox as int, 0, ray.scale as int, gx, 0, 1);
                lemma_slab_parallel(ray.oy as int, 0, ray.scale as int, gy, 0, 1);
                lemma_slab_parallel(ray.oz as int, 0, ray.scale as int, gz, 0, 1);
            }
        }
        assert(in_box(ray, gx, gy, gz, tn - td, td));
        assert(false);
    }
}

/// A box has at most one entry parameter, as a rational value.
proof fn lemma_entry_unique(
    ray: Ray,
    gx: int,
    gy: int,
    gz: int,
    an: int,
    ad: int,
    bn: int,
    bd: int,
)
    requires
        is_entry(ray, gx, gy, gz, an, ad),
        is_entry(ray, gx, gy, gz, bn, bd),
    ensures
        an * bd == bn * ad,
{
    assert(in_box(ray, gx, gy, gz, an, ad));
    assert(in_box(ray, gx, gy, gz, bn, bd));
}

/// Equal cells have equal scan positions only at equal coordinates.
proof fn lemma_scan_idx_inj(x: int, y: int, z: int, x2: int, y2: int, z2: int)
    requires
        0 <= x < 8 && 0 <= y < 8 && 0 <= z < 8,
        0 <= x2 < 8 && 0 <= y2 < 8 && 0 <= z2 < 8,
        scan_idx(x, y, z) == scan_idx(x2, y2, z2),
    ensures
        x == x2 && y == y2 && z == z2,
{
}

/// Finds the occupied cell with the smallest non-negative entry parameter
/// along the ray, scanning every cell of the grid; `None` when the ray
/// strikes nothing.
pub fn raycast_voxels(world: &World, ray: &Ray) -> (res: Option<RayHit>)
    requires
        world.wf(),
        ray.wf(),
    ensures
        res is None ==> forall|x: int, y: int, z: int|
            #[trigger] cell_occ(*world, x, y, z) ==> !cell_hit(*ray, x, y, z),
        res matches Some(h) ==> is_nearest_hit(*world, *ray, h),
{
    let mut best: Option<RayHit> = None;
    let mut y: i32 = 0;
    while y < 8
        invariant
            world.wf(),
            ray.wf(),
            0 <= y <= 8,
            nearest_upto(*world, *ray, best, y as int * 64),
        decreases 8 - y,
    {
        let mut z: i32 = 0;
        while z < 8
            invariant
                world.wf(),
                ray.wf(),
                0 <= y < 8,
                0 <= z <= 8,
                nearest_upto(*world, *ray, best, y as int * 64 + z as int * 8),
            decreases 8 - z,
        {
            let mut x: i32 = 0;
            while x < 8
                invariant
                    world.wf(),
                    ray.wf(),
                    0 <= y < 8,
                    0 <= z < 8,
                    0 <= x <= 8,
                    nearest_upto(*world, *ray, best, y as int * 64 + z as int * 8 + x as int),
                decreases 8 - x,
            {
                let ghost bound = y as int * 64 + z as int * 8 + x as int;
                let c = Coord::new(x, y, z);
                if world.get(&c) != Voxel::Air {
                    let r = ray_aabb(ray, (x - 4) as i64, (y - 4) as i64, (z - 4) as i64);
                    match r {
                        Some((tn, td, n)) => {
                            if tn >= 0 {
                                let replace: bool = match best {
                                    None => true,
                                    Some(b) => rat_lt(tn, td, b.t_num, b.t_den),
                                };
                                proof {
                                    step_hit(
                                        *world,
                                        *ray,
                                        best,
                                        bound,
                                        x as int,
                                        y as int,
                                        z as int,
                                        tn as int,
                                        td as int,
                                        n,
                                        replace,
                                    );
                                }
                                if replace {
                                    best = Some(
                                        RayHit { coord: c, normal: n, t_num: tn, t_den: td },
                                    );
                                }
                            } else {
                                proof {
                                    step_miss(
                                        *world,
                                        *ray,
                                        best,
                                        bound,
                                        x as int,
                                        y as int,
                                        z as int,
                                        Some((tn, td, n)),
                                    );
                                }
                            }
                        },
                        None => {
                            proof {
                                step_miss(
                                    *world,
                                    *ray,
                                    best,
                                    bound,
                                    x as int,
                                    y as int,
                                    z as int,
                                    None,
                                );
                            }
                        },
                    }
                } else {
                    proof {
                        step_skip(*world, *ray, best, bound, x as int, y as int, z as int);
                    }
                }
                x = x + 1;
            }
            z = z + 1;
        }
        y = y + 1;
    }
    proof {
        match best {
            None => {
                assert forall|x: int, y: int, z: int| #[trigger] cell_occ(*world, x, y, z)
                    implies !cell_hit(*ray, x, y, z) by {
                    if 0 <= x < 8 && 0 <= y < 8 && 0 <= z < 8 {
                        assert(scan_idx(x, y, z) < 512);
                    } else {
                        assert(world.vox_at(x, y, z) == Voxel::Air);
                    }
                }
            },
            Some(h) => {
                assert(hit_min_upto(*world, *ray, h, 512));
            },
        }
    }
    best
}

/// An unoccupied cell extends the scanned region without change.
proof fn step_skip(w: World, ray: Ray, best: Option<RayHit>, bound: int, x: int, y: int, z: int)
    requires
        0 <= x < 8 && 0 <= y < 8 && 0 <= z < 8,
        bound == scan_idx(x, y, z),
        !cell_occ(w, x, y, z),
        nearest_upto(w, ray, best, bound),
    ensures
        nearest_upto(w, ray, best, bound + 1),
{
    assert forall|x2: int, y2: int, z2: int|
        0 <= x2 < 8 && 0 <= y2 < 8 && 0 <= z2 < 8 && scan_idx(x2, y2, z2) < bound + 1
            && #[trigger] cell_occ(w, x2, y2, z2) implies scan_idx(x2, y2, z2) < bound by {
        if scan_idx(x2, y2, z2) == bound {
            lemma_scan_idx_inj(x2, y2, z2, x, y, z);
        }
    }
}

/// An occupied cell the ray misses, or strikes only behind the origin,
/// extends the scanned region without change.
proof fn step_miss(
    w: World,
    ray: Ray,
    best: Option<RayHit>,
    bound: int,
    x: int,
    y: int,
    z: int,
    r: Option<(i64, i64, IVec3)>,
)
    requires
        ray.wf(),
        0 <= x < 8 && 0 <= y < 8 && 0 <= z < 8,
        bound == scan_idx(x, y, z),
        nearest_upto(w, ray, best, bound),
        r matches Some((tn, td, n)) ==> td > 0 && tn < 0 && is_entry(
            ray,
            x - 4,
            y - 4,
            z - 4,
            tn as int,
            td as int,
        ),
        r is None ==> (ray.dx == 0 && ray.dy == 0 && ray.dz == 0) || (forall|tn: int, td: int|
            td > 0 ==> !#[trigger] in_box(ray, x - 4, y - 4, z - 4, tn, td)),
    ensures
        nearest_upto(w, ray, best, bound + 1),
{
    assert forall|un: int, ud: int| ud > 0 && un >= 0 implies !#[trigger] cell_entry(
        ray,
        x,
        y,
        z,
        un,
        ud,
    ) by {
        if cell_entry(ray, x, y, z, un, ud) {
            match r {
                Some((tn, td, n)) => {
                    lemma_entry_unique(ray, x - 4, y - 4, z - 4, tn as int, td as int, un, ud);
                    assert((tn as int) * ud < 0) by (nonlinear_arith)
                        requires
                            (tn as int) < 0,
                            ud > 0,
                    ;
                    assert(un * (td as int) >= 0) by (nonlinear_arith)
                        requires
                            un >= 0,
                            (td as int) > 0,
                    ;
                },
                None => {
                    if ray.dx == 0 && ray.dy == 0 && ray.dz == 0 {
                        lemma_zero_dir_no_entry(ray, x - 4, y - 4, z - 4, un, ud);
                    } else {
                        assert(in_box(ray, x - 4, y - 4, z - 4, un, ud));
                    }
                },
            }
        }
    }
    match best {
        None => {
            assert forall|x2: int, y2: int, z2: int|
                0 <= x2 < 8 && 0 <= y2 < 8 && 0 <= z2 < 8 && scan_idx(x2, y2, z2) < bound + 1
                    && #[trigger] cell_occ(w, x2, y2, z2) implies !cell_hit(ray, x2, y2, z2) by {
                if scan_idx(x2, y2, z2) == bound {
                    lemma_scan_idx_inj(x2, y2, z2, x, y, z);
                }
            }
        },
        Some(h) => {
            assert forall|x2: int, y2: int, z2: int, un: int, ud: int|
                0 <= x2 < 8 && 0 <= y2 < 8 && 0 <= z2 < 8 && scan_idx(x2, y2, z2) < bound + 1
                    && cell_occ(w, x2, y2, z2) && ud > 0 && un >= 0 && #[trigger] cell_entry(
                    ray,
                    x2,
                    y2,
                    z2,
                    un,
                    ud,
                ) implies {
                    &&& (h.t_num as int) * ud <= un * (h.t_den as int)
                    &&& ((h.t_num as int) * ud == un * (h.t_den as int) ==> scan_idx(
                        h.coord.x as int,
                        h.coord.y as int,
                        h.coord.z as int,
                    ) <= scan_idx(x2, y2, z2))
                } by {
                if scan_idx(x2, y2, z2) == bound {
                    lemma_scan_idx_inj(x2, y2, z2, x, y, z);
                }
            }
        },
    }
}

/// An occupied cell struck at a non-negative parameter: the running best
/// is replaced exactly when the new entry is strictly nearer.
proof fn step_hit(
    w: World,
    ray: Ray,
    best: Option<RayHit>,
    bound: int,
    x: int,
    y: int,
    z: int,
    tn: int,
    td: int,
    n: IVec3,
    replace: bool,
)
    requires
        ray.wf(),
        0 <= x < 8 && 0 <= y < 8 && 0 <= z < 8,
        bound == scan_idx(x, y, z),
        cell_occ(w, x, y, z),
        nearest_upto(w, ray, best, bound),
        0 <= tn <= T_LIMIT,
        0 < td <= RAY_LIMIT,
        is_entry(ray, x - 4, y - 4, z - 4, tn, td),
        hit_face(ray, x - 4, y - 4, z - 4, n, tn, td),
        replace == match best {
            None => true,
            Some(b) => tn * (b.t_den as int) < (b.t_num as int) * td,
        },
    ensures
        replace ==> nearest_upto(
            w,
            ray,
            Some(
                RayHit {
                    coord: Coord { x: x as i32, y: y as i32, z: z as i32 },
                    normal: n,
                    t_num: tn as i64,
                    t_den: td as i64,
                },
            ),
            bound + 1,
        ),
        !replace ==> nearest_upto(w, ray, best, bound + 1),
{
    if replace {
        let h2 = RayHit {
            coord: Coord { x: x as i32, y: y as i32, z: z as i32 },
            normal: n,
            t_num: tn as i64,
            t_den: td as i64,
        };
        assert(hit_props(w, ray, h2));
        assert forall|x2: int, y2: int, z2: int, un: int, ud: int|
            0 <= x2 < 8 && 0 <= y2 < 8 && 0 <= z2 < 8 && scan_idx(x2, y2, z2) < bound + 1
                && cell_occ(w, x2, y2, z2) && ud > 0 && un >= 0 && #[trigger] cell_entry(
                ray,
                x2,
                y2,
                z2,
                un,
                ud,
            ) implies {
                &&& tn * ud <= un * td
                &&& (tn * ud == un * td ==> scan_idx(x, y, z) <= scan_idx(x2, y2, z2))
            } by {
            if scan_idx(x2, y2, z2) == bound {
                // the cell just scanned: its entry is this very parameter
                lemma_scan_idx_inj(x2, y2, z2, x, y, z);
                lemma_entry_unique(ray, x - 4, y - 4, z - 4, tn, td, un, ud);
            } else {
                // an earlier cell: the old best was already no later than it
                match best {
                    None => {
                        assert(cell_hit(ray, x2, y2, z2));
                        assert(false);
                    },
                    Some(b) => {
                        assert((b.t_num as int) * ud <= un * (b.t_den as int));
                        lemma_rat_lt_le_trans(
                            tn,
                            td,
                            b.t_num as int,
                            b.t_den as int,
                            un,
                            ud,
                        );
                    },
                }
            }
        }
    } else {
        let b = best->Some_0;
        assert forall|x2: int, y2: int, z2: int, un: int, ud: int|
            0 <= x2 < 8 && 0 <= y2 < 8 && 0 <= z2 < 8 && scan_idx(x2, y2, z2) < bound + 1
                && cell_occ(w, x2, y2, z2) && ud > 0 && un >= 0 && #[trigger] cell_entry(
                ray,
                x2,
                y2,
                z2,
                un,
                ud,
            ) implies {
                &&& (b.t_num as int) * ud <= un * (b.t_den as int)
                &&& ((b.t_num as int) * ud == un * (b.t_den as int) ==> scan_idx(
                    b.coord.x as int,
                    b.coord.y as int,
                    b.coord.z as int,
                ) <= scan_idx(x2, y2, z2))
            } by {
            if scan_idx(x2, y2, z2) == bound {
                lemma_scan_idx_inj(x2, y2, z2, x, y, z);
                lemma_entry_unique(ray, x - 4, y - 4, z - 4, tn, td, un, ud);
                // the old best is at most this cell's parameter
                lemma_rat_le_trans(b.t_num as int, b.t_den as int, tn, td, un, ud);
                assert(scan_idx(b.coord.x as int, b.coord.y as int, b.coord.z as int) < bound);
            }
        }
    }
}

// ---------- mouse editing ----------

/// No occupied cell is struck by the ray.
pub open spec fn no_hit(w: World, ray: Ray) -> bool {
    forall|x: int, y: int, z: int| #[trigger] cell_occ(w, x, y, z) ==> !cell_hit(ray, x, y, z)
}

/// The two grids hold the same voxel at every coordinate.
pub open spec fn same_world(a: World, b: World) -> bool {
    forall|x: int, y: int, z: int| #[trigger] a.vox_at(x, y, z) == b.vox_at(x, y, z)
}

/// Grid `b` is grid `a` with the single cell `(cx, cy, cz)` set to `v`.
pub open spec fn world_with(a: World, b: World, cx: int, cy: int, cz: int, v: Voxel) -> bool {
    forall|x: int, y: int, z: int|
        #[trigger] b.vox_at(x, y, z) == if x == cx && y == cy && z == cz {
            v
        } else {
            a.vox_at(x, y, z)
        }
}

/// The face normal of any hit is a unit axis vector.
proof fn lemma_hit_normal_bounded(
    ray: Ray,
    gx: int,
    gy: int,
    gz: int,
    n: IVec3,
    tn: int,
    td: int,
)
    requires
        hit_face(ray, gx, gy, gz, n, tn, td),
    ensures
        -1 <= n.x <= 1 && -1 <= n.y <= 1 && -1 <= n.z <= 1,
{
    let a = choose|a: int|
        #[trigger] chosen_axis(ray, gx, gy, gz, a, tn, td) && n == axis_normal(a, axis_d(ray, a));
}

/// Applies one edit intent aimed by a ray. On remove, the struck cell is
/// cleared. On add, the cell adjacent to the struck face is filled if it is
/// in bounds and empty. Either mutation raises the changed signal; in every
/// other case the grid and the signal are left exactly as they were. When
/// both intents are given at once, remove wins.
pub fn mouse_edit_voxels(
    world: &mut World,
    changed: &mut WorldChanged,
    ray: &Ray,
    add: bool,
    remove: bool,
)
    requires
        old(world).wf(),
        ray.wf(),
    ensures
        final(world).wf(),
        !add && !remove ==> same_world(*old(world), *final(world))
            && final(changed).is_raised_spec() == old(changed).is_raised_spec(),
        (add || remove) && no_hit(*old(world), *ray) ==> same_world(*old(world), *final(world))
            && final(changed).is_raised_spec() == old(changed).is_raised_spec(),
        remove && !no_hit(*old(world), *ray) ==> exists|h: RayHit|
            {
                &&& #[trigger] is_nearest_hit(*old(world), *ray, h)
                &&& world_with(
                    *old(world),
                    *final(world),
                    h.coord.x as int,
                    h.coord.y as int,
                    h.coord.z as int,
                    Voxel::Air,
                )
                &&& final(changed).is_raised_spec()
            },
        !remove && add && !no_hit(*old(world), *ray) ==> exists|h: RayHit|
            {
                let px = h.coord.x as int + h.normal.x as int;
                let py = h.coord.y as int + h.normal.y as int;
                let pz = h.coord.z as int + h.normal.z as int;
                &&& #[trigger] is_nearest_hit(*old(world), *ray, h)
                &&& if 0 <= px < 8 && 0 <= py < 8 && 0 <= pz < 8 && old(world).vox_at(px, py, pz)
                    == Voxel::Air {
                    world_with(*old(world), *final(world), px, py, pz, Voxel::Brick)
                        && final(changed).is_raised_spec()
                } else {
                    same_world(*old(world), *final(world)) && final(changed).is_raised_spec()
                        == old(changed).is_raised_spec()
                }
            },
{
    if !add && !remove {
        return ;
    }

    let hit = raycast_voxels(world, ray);
    let h = match hit {
        None => {
            return ;
        },
        Some(h) => h,
    };
    proof {
        assert(cell_hit(
            *ray,
            h.coord.x as int,
            h.coord.y as int,
            h.coord.z as int,
        )) by {
            assert(cell_entry(
                *ray,
                h.coord.x as int,
                h.coord.y as int,
                h.coord.z as int,
                h.t_num as int,
                h.t_den as int,
            ) && h.t_num as int >= 0);
        }
        assert(!no_hit(*world, *ray));
    }

    if remove {
        world.set(&h.coord, Voxel::Air);
        changed.raise();
        return ;
    }

    // add
    proof {
        lemma_hit_normal_bounded(
            *ray,
            h.coord.x as int - 4,
            h.coord.y as int - 4,
            h.coord.z as int - 4,
            h.normal,
            h.t_num as int,
            h.t_den as int,
        );
    }
    let place = Coord::new(
        h.coord.x + h.normal.x,
        h.coord.y + h.normal.y,
        h.coord.z + h.normal.z,
    );

    if World::in_bounds(&place) && world.get(&place) == Voxel::Air {
        world.set(&place, Voxel::Brick);
        changed.raise();
    }
}

/// The ray caster round trip, in general. Suppose one cell is the grid's
/// only occupied cell, and the ray is aimed at one of its faces: along
/// axis `a` it travels against the face's outward normal and meets the
/// face's plane at the non-negative parameter `tn / td`, and at that
/// parameter it lies strictly within the face's extent on the other two
/// axes (as it does when aimed at the face's center from outside). Then
/// that parameter is the ray's entry into the cell, the cell is struck,
/// and any nearest hit — in particular the one `raycast_voxels` returns —
/// names exactly this cell, this face's outward normal, and this
/// parameter.
pub proof fn lemma_single_cell_face_hit(
    w: World,
    ray: Ray,
    c: Coord,
    a: int,
    tn: int,
    td: int,
)
    requires
        ray.wf(),
        0 <= c.x < 8 && 0 <= c.y < 8 && 0 <= c.z < 8,
        cell_occ(w, c.x as int, c.y as int, c.z as int),
        forall|x: int, y: int, z: int|
            #[trigger] cell_occ(w, x, y, z) ==> x == c.x as int && y == c.y as int && z
                == c.z as int,
        td > 0,
        tn >= 0,
        0 <= a < 3,
        axis_d(ray, a) != 0,
        axis_o(ray, a) * td + tn * axis_d(ray, a) == (if axis_d(ray, a) > 0 {
            axis_lo(c.x as int - 4, c.y as int - 4, c.z as int - 4, a)
        } else {
            axis_lo(c.x as int - 4, c.y as int - 4, c.z as int - 4, a) + 1
        }) * (ray.scale as int) * td,
        forall|b: int|
            0 <= b < 3 && b != a ==> axis_lo(c.x as int - 4, c.y as int - 4, c.z as int - 4, b) * (
            ray.scale as int) * td < axis_o(ray, b) * td + tn * #[trigger] axis_d(ray, b) < (
            axis_lo(c.x as int - 4, c.y as int - 4, c.z as int - 4, b) + 1) * (ray.scale as int)
                * td,
    ensures
        cell_entry(ray, c.x as int, c.y as int, c.z as int, tn, td),
        cell_hit(ray, c.x as int, c.y as int, c.z as int),
        forall|h: RayHit|
            #[trigger] is_nearest_hit(w, ray, h) ==> h.coord == c && h.normal == axis_normal(
                a,
                axis_d(ray, a),
            ) && (h.t_num as int) * td == tn * (h.t_den as int),
{
    let gx = c.x as int - 4;
    let gy = c.y as int - 4;
    let gz = c.z as int - 4;
    let s = ray.scale as int;
    let d = axis_d(ray, a);
    let o = axis_o(ray, a);
    let lo = axis_lo(gx, gy, gz, a);
    assert(s * td > 0) by (nonlinear_arith)
        requires
            s > 0,
            td > 0,
    ;
    assert((lo + 1) * s * td == lo * s * td + s * td) by (nonlinear_arith);

    // the parameter lies in the box: on the face's own axis by the plane
    // equation, on the other axes strictly
    assert(axis_in_slab(ray.ox as int, ray.dx as int, s, gx, tn, td)) by {
        if a != 0 {
            assert(axis_d(ray, 0) == ray.dx as int);
        }
    }
    assert(axis_in_slab(ray.oy as int, ray.dy as int, s, gy, tn, td)) by {
        if a != 1 {
            assert(axis_d(ray, 1) == ray.dy as int);
        }
    }
    assert(axis_in_slab(ray.oz as int, ray.dz as int, s, gz, tn, td)) by {
        if a != 2 {
            assert(axis_d(ray, 2) == ray.dz as int);
        }
    }
    assert(in_box(ray, gx, gy, gz, tn, td));

    // nothing earlier lies in the box: before the face plane, the face's
    // own axis is still outside its slab
    assert forall|un: int, ud: int| ud > 0 && un * td < tn * ud implies !#[trigger] in_box(
        ray,
        gx,
        gy,
        gz,
        un,
        ud,
    ) by {
        if in_box(ray, gx, gy, gz, un, ud) {
            if d > 0 {
                assert(o * ud + un * d < lo * s * ud) by (nonlinear_arith)
                    requires
                        td > 0,
                        ud > 0,
                        d > 0,
                        un * td < tn * ud,
                        o * td + tn * d == lo * s * td,
                ;
            } else {
                assert(o * ud + un * d > (lo + 1) * s * ud) by (nonlinear_arith)
                    requires
                        td > 0,
                        ud > 0,
                        d < 0,
                        un * td < tn * ud,
                        o * td + tn * d == (lo + 1) * s * td,
                ;
            }
            if a == 0 {
                assert(!axis_in_slab(ray.ox as int, ray.dx as int, s, gx, un, ud));
            } else if a == 1 {
                assert(!axis_in_slab(ray.oy as int, ray.dy as int, s, gy, un, ud));
            } else {
                assert(!axis_in_slab(ray.oz as int, ray.dz as int, s, gz, un, ud));
            }
        }
    }
    assert(is_entry(ray, gx, gy, gz, tn, td));
    assert(cell_entry(ray, c.x as int, c.y as int, c.z as int, tn, td) && tn >= 0);
    assert(cell_hit(ray, c.x as int, c.y as int, c.z as int));

    // the other axes' slab entries come strictly before the face plane
    assert forall|b: int|
        0 <= b < 3 && b != a && #[trigger] axis_d(ray, b) != 0 implies axis_ent_num(
        ray,
        gx,
        gy,
        gz,
        b,
    ) * td < tn * axis_ent_den(ray, b) by {
        let ob = axis_o(ray, b);
        let db = axis_d(ray, b);
        let lob = axis_lo(gx, gy, gz, b);
        if db > 0 {
            assert((lob * s - ob) * td < tn * db) by (nonlinear_arith)
                requires
                    lob * s * td < ob * td + tn * db,
            ;
        } else {
            assert((ob - (lob + 1) * s) * td < tn * (-db)) by (nonlinear_arith)
                requires
                    ob * td + tn * db < (lob + 1) * s * td,
            ;
        }
    }

    // any nearest hit names this cell, this face's normal, this parameter
    assert forall|h: RayHit| #[trigger] is_nearest_hit(w, ray, h) implies h.coord == c
        && h.normal == axis_normal(a, axis_d(ray, a)) && (h.t_num as int) * td == tn * (
    h.t_den as int) by {
        assert(cell_occ(w, h.coord.x as int, h.coord.y as int, h.coord.z as int));
        assert(h.coord.x as int == c.x as int && h.coord.y as int == c.y as int && h.coord.z as int
            == c.z as int);
        assert(h.coord == c);
        lemma_entry_unique(ray, gx, gy, gz, h.t_num as int, h.t_den as int, tn, td);
        let a2 = choose|a2: int|
            #[trigger] chosen_axis(ray, gx, gy, gz, a2, h.t_num as int, h.t_den as int)
                && h.normal == axis_normal(a2, axis_d(ray, a2));
        if a2 != a {
            assert(axis_ent_num(ray, gx, gy, gz, a2) * td < tn * axis_ent_den(ray, a2));
            assert(false);
        }
    }
}

/// A grid with every cell empty is struck by no ray.
pub proof fn lemma_empty_world_misses(w: World, ray: Ray)
    requires
        forall|x: int, y: int, z: int| #[trigger] w.vox_at(x, y, z) == Voxel::Air,
    ensures
        no_hit(w, ray),
{
}

/// |a| <= m and |b| <= m give |a * b| <= m * m.
proof fn lemma_mul_abs_bound(a: int, b: int, m: int)
    requires
        -m <= a <= m,
        -m <= b <= m,
        m >= 0,
    ensures
        -(m * m) <= a * b <= m * m,
{
    assert(-(m * m) <= a * b <= m * m) by (nonlinear_arith)
        requires
            -m <= a <= m,
            -m <= b <= m,
            m >= 0,
    ;
}

} // verus!

