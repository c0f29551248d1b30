//! The autotiling classifier: derives a tile shape and an orientation from
//! a cell's six-neighborhood, by matching the shape's canonical connection
//! set against the actual occupied directions under the 24 cube rotations.
//!
//! Rotations are integer 3x3 matrices built from an orthogonal
//! (forward, up) pair of axis directions, with right = up x forward, so
//! every step of the matching is exact.

use vstd::multiset::Multiset;
use vstd::prelude::*;

use crate::autotile::Neighbors;
use crate::tile_kind::TileKind;

verus! {

/// An integer 3-vector; the classifier uses it for unit axis directions.
#[derive(Clone, Copy, Debug, PartialEq, Eq, Structural)]
pub struct IVec3 {
    pub x: i32,
    pub y: i32,
    pub z: i32,
}

/// An integer vector with the given components.
pub open spec fn ivec(x: int, y: int, z: int) -> IVec3 {
    IVec3 { x: x as i32, y: y as i32, z: z as i32 }
}

impl IVec3 {
    pub fn new(x: i32, y: i32, z: i32) -> (v: IVec3)
        ensures
            v == (IVec3 { x, y, z }),
    {
        IVec3 { x, y, z }
    }

    /// Every component lies in {-1, 0, 1}.
    pub open spec fn bounded(self) -> bool {
        &&& -1 <= self.x <= 1
        &&& -1 <= self.y <= 1
        &&& -1 <= self.z <= 1
    }
}

/// A proper rotation of the cube, stored as the three columns of its
/// matrix: the images of the x, y and z basis vectors.
#[derive(Clone, Copy, Debug, PartialEq, Eq, Structural)]
pub struct Rotation {
    pub cx: IVec3,
    pub cy: IVec3,
    pub cz: IVec3,
}

pub open spec fn identity_rot() -> Rotation {
    Rotation {
        cx: IVec3 { x: 1, y: 0, z: 0 },
        cy: IVec3 { x: 0, y: 1, z: 0 },
        cz: IVec3 { x: 0, y: 0, z: 1 },
    }
}

impl Rotation {
    pub open spec fn bounded(self) -> bool {
        self.cx.bounded() && self.cy.bounded() && self.cz.bounded()
    }

    pub fn identity() -> (r: Rotation)
        ensures
            r == identity_rot(),
    {
        Rotation {
            cx: IVec3 { x: 1, y: 0, z: 0 },
            cy: IVec3 { x: 0, y: 1, z: 0 },
            cz: IVec3 { x: 0, y: 0, z: 1 },
        }
    }
}

pub open spec fn dot(a: IVec3, b: IVec3) -> int {
    a.x * b.x + a.y * b.y + a.z * b.z
}

pub open spec fn cross_spec(a: IVec3, b: IVec3) -> IVec3 {
    ivec(
        a.y * b.z - a.z * b.y,
        a.z * b.x - a.x * b.z,
        a.x * b.y - a.y * b.x,
    )
}

/// The rotation matrix applied to a vector (matrix times column vector).
pub open spec fn rot_apply(r: Rotation, d: IVec3) -> IVec3 {
    ivec(
        r.cx.x * d.x + r.cy.x * d.y + r.cz.x * d.z,
        r.cx.y * d.x + r.cy.y * d.y + r.cz.y * d.z,
        r.cx.z * d.x + r.cy.z * d.y + r.cz.z * d.z,
    )
}

/// The six axis directions, in the fixed enumeration order the rotation
/// search uses: +x, -x, +y, -y, +z, -z.
pub open spec fn dir_at(i: int) -> IVec3 {
    if i == 0 {
        IVec3 { x: 1, y: 0, z: 0 }
    } else if i == 1 {
        IVec3 { x: -1i32, y: 0, z: 0 }
    } else if i == 2 {
        IVec3 { x: 0, y: 1, z: 0 }
    } else if i == 3 {
        IVec3 { x: 0, y: -1i32, z: 0 }
    } else if i == 4 {
        IVec3 { x: 0, y: 0, z: 1 }
    } else {
        IVec3 { x: 0, y: 0, z: -1i32 }
    }
}

fn dir_of(i: usize) -> (v: IVec3)
    requires
        i < 6,
    ensures
        v == dir_at(i as int),
        v.bounded(),
{
    if i == 0 {
        IVec3 { x: 1, y: 0, z: 0 }
    } else if i == 1 {
        IVec3 { x: -1, y: 0, z: 0 }
    } else if i == 2 {
        IVec3 { x: 0, y: 1, z: 0 }
    } else if i == 3 {
        IVec3 { x: 0, y: -1, z: 0 }
    } else if i == 4 {
        IVec3 { x: 0, y: 0, z: 1 }
    } else {
        IVec3 { x: 0, y: 0, z: -1 }
    }
}

/// The rotation frame built from a forward and an up direction:
/// columns (right, up, forward) with right = up x forward.
pub open spec fn frame(f: IVec3, u: IVec3) -> Rotation {
    Rotation { cx: cross_spec(u, f), cy: u, cz: f }
}

/// Rotations contributed by the flattened (forward, up) pair number `i`:
/// one frame when the pair is orthogonal, none when it is parallel.
pub open spec fn pair_rots(i: int) -> Seq<Rotation> {
    let f = dir_at(i / 6);
    let u = dir_at(i % 6);
    if dot(f, u) == 0 {
        seq![frame(f, u)]
    } else {
        Seq::empty()
    }
}

pub open spec fn rots_prefix(k: int) -> Seq<Rotation>
    decreases k,
{
    if k <= 0 {
        Seq::empty()
    } else {
        rots_prefix(k - 1) + pair_rots(k - 1)
    }
}

/// All 24 proper cube rotations, in the fixed enumeration order.
pub open spec fn cube_rotations() -> Seq<Rotation> {
    rots_prefix(36)
}

/// Enumerates the proper rotations of the cube by choosing an orthogonal
/// (forward, up) pair of axis directions and building a right-handed frame.
/// Distinct pairs give distinct frames, so the 24 elements need no
/// deduplication.
pub fn all_cube_rotations() -> (rots: Vec<Rotation>)
    ensures
        rots@ == cube_rotations(),
        forall|i: int| 0 <= i < rots@.len() ==> (#[trigger] rots@[i]).bounded(),
{
    let mut rots: Vec<Rotation> = Vec::new();
    let mut fi: usize = 0;
    while fi < 6
        invariant
            fi <= 6,
            rots@ == rots_prefix(fi as int * 6),
            forall|i: int| 0 <= i < rots@.len() ==> (#[trigger] rots@[i]).bounded(),
        decreases 6 - fi,
    {
        let f = dir_of(fi);
        let mut ui: usize = 0;
        while ui < 6
            invariant
                fi < 6,
                ui <= 6,
                f == dir_at(fi as int),
                f.bounded(),
                rots@ == rots_prefix(fi as int * 6 + ui as int),
                forall|i: int| 0 <= i < rots@.len() ==> (#[trigger] rots@[i]).bounded(),
            decreases 6 - ui,
        {
            let u = dir_of(ui);
            proof {
                lemma_mul_unit(f.x as int, u.x as int);
                lemma_mul_unit(f.y as int, u.y as int);
                lemma_mul_unit(f.z as int, u.z as int);
            }
            let d = f.x * u.x + f.y * u.y + f.z * u.z;
            proof {
                assert((fi as int * 6 + ui as int) / 6 == fi as int) by (nonlinear_arith)
                    requires 0 <= fi < 6 && 0 <= ui < 6;
                assert((fi as int * 6 + ui as int) % 6 == ui as int) by (nonlinear_arith)
                    requires 0 <= fi < 6 && 0 <= ui < 6;
            }
            if d == 0 {
                proof {
                    lemma_mul_unit(u.y as int, f.z as int);
                    lemma_mul_unit(u.z as int, f.y as int);
                    lemma_mul_unit(u.z as int, f.x as int);
                    lemma_mul_unit(u.x as int, f.z as int);
                    lemma_mul_unit(u.x as int, f.y as int);
                    lemma_mul_unit(u.y as int, f.x as int);
                }
                let right = IVec3 {
                    x: u.y * f.z - u.z * f.y,
                    y: u.z * f.x - u.x * f.z,
                    z: u.x * f.y - u.y * f.x,
                };
                let r = Rotation { cx: right, cy: u, cz: f };
                proof {
                    assert(r == frame(dir_at(fi as int), dir_at(ui as int)));
                    assert(rots@.push(r) =~= rots_prefix(fi as int * 6 + ui as int + 1));
                }
                rots.push(r);
            } else {
                proof {
                    assert(rots@ =~= rots_prefix(fi as int * 6 + ui as int + 1));
                }
            }
            ui = ui + 1;
        }
        fi = fi + 1;
    }
    rots
}

/// The enumeration yields exactly the 24 proper rotations of the cube.
pub proof fn lemma_cube_rotation_count()
    ensures
        cube_rotations().len() == 24,
{
    // pin each direction's components and the products of unit literals,
    // so that the orthogonality test of every pair below evaluates
    assert(dir_at(0).x == 1 && dir_at(0).y == 0 && dir_at(0).z == 0);
    assert(dir_at(1).x == -1 && dir_at(1).y == 0 && dir_at(1).z == 0);
    assert(dir_at(2).x == 0 && dir_at(2).y == 1 && dir_at(2).z == 0);
    assert(dir_at(3).x == 0 && dir_at(3).y == -1 && dir_at(3).z == 0);
    assert(dir_at(4).x == 0 && dir_at(4).y == 0 && dir_at(4).z == 1);
    assert(dir_at(5).x == 0 && dir_at(5).y == 0 && dir_at(5).z == -1);
    assert(1 * 1 == 1 && (-1) * (-1) == 1 && 1 * (-1) == -1 && (-1) * 1 == -1) by (nonlinear_arith);
    assert(0 * 0 == 0 && 1 * 0 == 0 && 0 * 1 == 0 && (-1) * 0 == 0 && 0 * (-1) == 0)
        by (nonlinear_arith);
    assert(rots_prefix(0).len() == 0);
    assert(rots_prefix(1).len() == 0);
    assert(rots_prefix(2).len() == 0);
    assert(rots_prefix(3).len() == 1);
    assert(rots_prefix(4).len() == 2);
    assert(rots_prefix(5).len() == 3);
    assert(rots_prefix(6).len() == 4);
    assert(rots_prefix(7).len() == 4);
    assert(rots_prefix(8).len() == 4);
    assert(rots_prefix(9).len() == 5);
    assert(rots_prefix(10).len() == 6);
    assert(rots_prefix(11).len() == 7);
    assert(rots_prefix(12).len() == 8);
    assert(rots_prefix(13).len() == 9);
    assert(rots_prefix(14).len() == 10);
    assert(rots_prefix(15).len() == 10);
    assert(rots_prefix(16).len() == 10);
    assert(rots_prefix(17).len() == 11);
    assert(rots_prefix(18).len() == 12);
    assert(rots_prefix(19).len() == 13);
    assert(rots_prefix(20).len() == 14);
    assert(rots_prefix(21).len() == 14);
    assert(rots_prefix(22).len() == 14);
    assert(rots_prefix(23).len() == 15);
    assert(rots_prefix(24).len() == 16);
    assert(rots_prefix(25).len() == 17);
    assert(rots_prefix(26).len() == 18);
    assert(rots_prefix(27).len() == 19);
    assert(rots_prefix(28).len() == 20);
    assert(rots_prefix(29).len() == 20);
    assert(rots_prefix(30).len() == 20);
    assert(rots_prefix(31).len() == 21);
    assert(rots_prefix(32).len() == 22);
    assert(rots_prefix(33).len() == 23);
    assert(rots_prefix(34).len() == 24);
    assert(rots_prefix(35).len() == 24);
    assert(rots_prefix(36).len() == 24);
}

/// The frame built by the flattened pair number `i`.
pub open spec fn pair_frame(i: int) -> Rotation {
    frame(dir_at(i / 6), dir_at(i % 6))
}

/// The flattened pair number `i` names an orthogonal (forward, up) pair.
pub open spec fn pair_ok(i: int) -> bool {
    dot(dir_at(i / 6), dir_at(i % 6)) == 0
}

/// The six axis directions are pairwise distinct.
proof fn lemma_dir_at_inj(i: int, j: int)
    requires
        0 <= i < 6,
        0 <= j < 6,
        dir_at(i) == dir_at(j),
    ensures
        i == j,
{
}

/// A frame names its pair: the forward and up directions are its own
/// columns, so distinct pairs build distinct frames.
proof fn lemma_pair_frame_inj(i: int, j: int)
    requires
        0 <= i < 36,
        0 <= j < 36,
        pair_frame(i) == pair_frame(j),
    ensures
        i == j,
{
    lemma_dir_at_inj(i / 6, j / 6);
    lemma_dir_at_inj(i % 6, j % 6);
    assert(i == 6 * (i / 6) + i % 6 && j == 6 * (j / 6) + j % 6) by (nonlinear_arith)
        requires
            0 <= i < 36,
            0 <= j < 36,
    ;
}

/// The rotation is the frame of one of the first `k` orthogonal pairs.
spec fn frame_of_pair_below(k: int, r: Rotation) -> bool {
    exists|i: int| 0 <= i < k && pair_ok(i) && r == #[trigger] pair_frame(i)
}

/// Every element of the enumeration's prefix is the frame of one earlier
/// orthogonal pair, and no element repeats.
proof fn lemma_rots_prefix_distinct(k: int)
    requires
        0 <= k <= 36,
    ensures
        forall|p: int|
            0 <= p < rots_prefix(k).len() ==> frame_of_pair_below(
                k,
                #[trigger] rots_prefix(k)[p],
            ),
        forall|p: int, q: int|
            0 <= p < q < rots_prefix(k).len() ==> rots_prefix(k)[p] != rots_prefix(k)[q],
    decreases k,
{
    if k > 0 {
        lemma_rots_prefix_distinct(k - 1);
        let prev = rots_prefix(k - 1);
        let s = rots_prefix(k);
        assert forall|p: int| 0 <= p < s.len() implies frame_of_pair_below(
            k,
            #[trigger] s[p],
        ) by {
            if p < prev.len() {
                let i = choose|i: int|
                    0 <= i < k - 1 && pair_ok(i) && prev[p] == #[trigger] pair_frame(i);
                assert(s[p] == pair_frame(i));
            } else {
                assert(pair_ok(k - 1) && s[p] == pair_frame(k - 1));
            }
        }
        assert forall|p: int, q: int| 0 <= p < q < s.len() implies s[p] != s[q] by {
            if q < prev.len() {
                assert(prev[p] != prev[q]);
            } else {
                // the newcomer is the frame of pair k - 1, which no earlier
                // pair builds
                if s[p] == s[q] {
                    let i = choose|i: int|
                        0 <= i < k - 1 && pair_ok(i) && prev[p] == #[trigger] pair_frame(i);
                    assert(s[q] == pair_frame(k - 1));
                    lemma_pair_frame_inj(i, k - 1);
                }
            }
        }
    }
}

/// No two of the 24 enumerated rotations are equal: the enumeration needs
/// no deduplication.
pub proof fn lemma_cube_rotations_distinct()
    ensures
        forall|p: int, q: int|
            0 <= p < q < cube_rotations().len() ==> cube_rotations()[p] != cube_rotations()[q],
{
    lemma_rots_prefix_distinct(36);
}

/// The occupied-neighbor directions of a neighborhood, as unit vectors,
/// in the fixed order -x, +x, -y, +y, -z, +z.
pub open spec fn conn_seq(nei: Neighbors) -> Seq<IVec3> {
    (if nei.nx {
        seq![dir_at(1)]
    } else {
        Seq::empty()
    }) + (if nei.px {
        seq![dir_at(0)]
    } else {
        Seq::empty()
    }) + (if nei.ny {
        seq![dir_at(3)]
    } else {
        Seq::empty()
    }) + (if nei.py {
        seq![dir_at(2)]
    } else {
        Seq::empty()
    }) + (if nei.nz {
        seq![dir_at(5)]
    } else {
        Seq::empty()
    }) + (if nei.pz {
        seq![dir_at(4)]
    } else {
        Seq::empty()
    })
}

/// Collects the occupied-neighbor directions as unit vectors.
#[verifier::rlimit(50)]
pub fn conn_dirs(nei: Neighbors) -> (v: Vec<IVec3>)
    ensures
        v@ == conn_seq(nei),
        forall|i: int| 0 <= i < v@.len() ==> (#[trigger] v@[i]).bounded(),
{
    let mut v: Vec<IVec3> = Vec::new();
    if nei.nx {
        v.push(IVec3 { x: -1, y: 0, z: 0 });
    }
    if nei.px {
        v.push(IVec3 { x: 1, y: 0, z: 0 });
    }
    if nei.ny {
        v.push(IVec3 { x: 0, y: -1, z: 0 });
    }
    if nei.py {
        v.push(IVec3 { x: 0, y: 1, z: 0 });
    }
    if nei.nz {
        v.push(IVec3 { x: 0, y: 0, z: -1 });
    }
    if nei.pz {
        v.push(IVec3 { x: 0, y: 0, z: 1 });
    }
    proof {
        assert(v@ =~= conn_seq(nei));
    }
    v
}

/// Two directions are antiparallel: their sum is zero.
pub open spec fn opposite(a: IVec3, b: IVec3) -> bool {
    &&& a.x + b.x == 0
    &&& a.y + b.y == 0
    &&& a.z + b.z == 0
}

fn is_opposite_pair(a: IVec3, b: IVec3) -> (r: bool)
    requires
        a.bounded(),
        b.bounded(),
    ensures
        r == opposite(a, b),
{
    a.x == -b.x && a.y == -b.y && a.z == -b.z
}

fn is_straight(conns: &Vec<IVec3>) -> (r: bool)
    requires
        forall|i: int| 0 <= i < conns@.len() ==> (#[trigger] conns@[i]).bounded(),
    ensures
        r == (conns@.len() == 2 && opposite(conns@[0], conns@[1])),
{
    conns.len() == 2 && is_opposite_pair(conns[0], conns[1])
}

/// The tile shape a connection set has, by count and arrangement.
pub open spec fn kind_of_conns(s: Seq<IVec3>) -> TileKind {
    if s.len() == 0 {
        TileKind::Solo
    } else if s.len() == 1 {
        TileKind::End
    } else if s.len() == 2 {
        if opposite(s[0], s[1]) {
            TileKind::Straight
        } else {
            TileKind::Corner
        }
    } else if s.len() == 3 {
        TileKind::Tee
    } else {
        TileKind::Cross
    }
}

pub fn kind_from_conns(conns: &Vec<IVec3>) -> (kind: TileKind)
    requires
        forall|i: int| 0 <= i < conns@.len() ==> (#[trigger] conns@[i]).bounded(),
    ensures
        kind == kind_of_conns(conns@),
{
    match conns.len() {
        0 => TileKind::Solo,
        1 => TileKind::End,
        2 => if is_straight(conns) {
            TileKind::Straight
        } else {
            TileKind::Corner
        },
        3 => TileKind::Tee,
        _ => TileKind::Cross,
    }
}

/// The fixed reference connection set of each shape.
pub open spec fn canonical_spec(kind: TileKind) -> Seq<IVec3> {
    match kind {
        TileKind::Solo => Seq::empty(),
        TileKind::End => seq![dir_at(3)],
        TileKind::Straight => seq![dir_at(3), dir_at(2)],
        TileKind::Corner => seq![dir_at(3), dir_at(0)],
        TileKind::Tee => seq![dir_at(3), dir_at(0), dir_at(1)],
        TileKind::Cross => seq![dir_at(3), dir_at(2), dir_at(0), dir_at(1)],
    }
}

pub fn canonical_conns(kind: TileKind) -> (v: Vec<IVec3>)
    ensures
        v@ == canonical_spec(kind),
        forall|i: int| 0 <= i < v@.len() ==> (#[trigger] v@[i]).bounded(),
{
    let nx = IVec3 { x: -1, y: 0, z: 0 };
    let px = IVec3 { x: 1, y: 0, z: 0 };
    let ny = IVec3 { x: 0, y: -1, z: 0 };
    let py = IVec3 { x: 0, y: 1, z: 0 };

    let v: Vec<IVec3> = match kind {
        TileKind::Solo => vec![],
        TileKind::End => vec![ny],
        TileKind::Straight => vec![ny, py],
        TileKind::Corner => vec![ny, px],
        TileKind::Tee => vec![ny, px, nx],
        TileKind::Cross => vec![ny, py, px, nx],
    };
    proof {
        assert(v@ =~= canonical_spec(kind));
    }
    v
}

/// The product of two factors from {-1, 0, 1} stays in {-1, 0, 1}.
proof fn lemma_mul_unit(a: int, b: int)
    requires
        -1 <= a <= 1,
        -1 <= b <= 1,
    ensures
        -1 <= a * b <= 1,
{
    assert(-1 <= a * b <= 1) by (nonlinear_arith)
        requires
            -1 <= a <= 1,
            -1 <= b <= 1,
    ;
}

/// Rotates a direction: the matrix applied to the vector.
pub fn rotate_dir(r: Rotation, d: IVec3) -> (v: IVec3)
    requires
        r.bounded(),
        d.bounded(),
    ensures
        v == rot_apply(r, d),
{
    proof {
        lemma_mul_unit(r.cx.x as int, d.x as int);
        lemma_mul_unit(r.cy.x as int, d.y as int);
        lemma_mul_unit(r.cz.x as int, d.z as int);
        lemma_mul_unit(r.cx.y as int, d.x as int);
        lemma_mul_unit(r.cy.y as int, d.y as int);
        lemma_mul_unit(r.cz.y as int, d.z as int);
        lemma_mul_unit(r.cx.z as int, d.x as int);
        lemma_mul_unit(r.cy.z as int, d.y as int);
        lemma_mul_unit(r.cz.z as int, d.z as int);
    }
    IVec3 {
        x: r.cx.x * d.x + r.cy.x * d.y + r.cz.x * d.z,
        y: r.cx.y * d.x + r.cy.y * d.y + r.cz.y * d.z,
        z: r.cx.z * d.x + r.cy.z * d.y + r.cz.z * d.z,
    }
}

/// The canonical set as the rotation lays it out.
pub open spec fn rotated_seq(r: Rotation, s: Seq<IVec3>) -> Seq<IVec3> {
    s.map_values(|d: IVec3| rot_apply(r, d))
}

/// Order-independent equality of two direction lists: the same directions
/// with the same multiplicities. This is what sorting both lists by the
/// coordinate tuple and comparing them decides.
pub open spec fn unordered_eq(a: Seq<IVec3>, b: Seq<IVec3>) -> bool {
    a.to_multiset() == b.to_multiset()
}

/// Inserting an element raises its own count by one and no other.
proof fn lemma_insert_count(m: Multiset<IVec3>, a: IVec3)
    ensures
        m.insert(a).count(a) == m.count(a) + 1,
        forall|x: IVec3| x != a ==> #[trigger] m.insert(a).count(x) == m.count(x),
{
    broadcast use vstd::multiset::group_multiset_axioms;

}

/// How often a direction occurs in a list.
fn count_dir(v: &Vec<IVec3>, x: IVec3) -> (n: usize)
    ensures
        n as nat == v@.to_multiset().count(x),
{
    let mut n: usize = 0;
    let mut i: usize = 0;
    proof {
        v@.take(0).to_multiset_ensures();
        assert(!v@.take(0).contains(x));
    }
    while i < v.len()
        invariant
            i <= v@.len(),
            n <= i,
            n as nat == v@.take(i as int).to_multiset().count(x),
        decreases v@.len() - i,
    {
        proof {
            v@.take(i as int).to_multiset_ensures();
            lemma_insert_count(v@.take(i as int).to_multiset(), v@[i as int]);
            assert(v@.take(i as int + 1) =~= v@.take(i as int).push(v@[i as int]));
        }
        if v[i] == x {
            n = n + 1;
        }
        i = i + 1;
    }
    proof {
        assert(v@.take(v@.len() as int) =~= v@);
    }
    n
}

/// Order-independent comparison of two direction lists: equal exactly when
/// they hold the same directions with the same multiplicities.
pub fn set_eq(a: &Vec<IVec3>, b: &Vec<IVec3>) -> (r: bool)
    ensures
        r == unordered_eq(a@, b@),
{
    if a.len() != b.len() {
        proof {
            a@.to_multiset_ensures();
            b@.to_multiset_ensures();
        }
        return false;
    }
    let mut i: usize = 0;
    while i < a.len()
        invariant
            i <= a@.len(),
            a@.len() == b@.len(),
            forall|k: int|
                0 <= k < i as int ==> a@.to_multiset().count(#[trigger] a@[k])
                    == b@.to_multiset().count(a@[k]),
        decreases a@.len() - i,
    {
        if count_dir(a, a[i]) != count_dir(b, a[i]) {
            return false;
        }
        i = i + 1;
    }
    let mut j: usize = 0;
    while j < b.len()
        invariant
            j <= b@.len(),
            a@.len() == b@.len(),
            forall|k: int|
                0 <= k < a@.len() ==> a@.to_multiset().count(#[trigger] a@[k])
                    == b@.to_multiset().count(a@[k]),
            forall|k: int|
                0 <= k < j as int ==> a@.to_multiset().count(#[trigger] b@[k])
                    == b@.to_multiset().count(b@[k]),
        decreases b@.len() - j,
    {
        if count_dir(a, b[j]) != count_dir(b, b[j]) {
            return false;
        }
        j = j + 1;
    }
    proof {
        a@.to_multiset_ensures();
        b@.to_multiset_ensures();
        assert forall|x: IVec3| a@.to_multiset().count(x) == b@.to_multiset().count(x) by {
            if a@.contains(x) {
                let k = choose|k: int| 0 <= k < a@.len() && a@[k] == x;
                assert(a@.to_multiset().count(a@[k]) == b@.to_multiset().count(a@[k]));
            } else if b@.contains(x) {
                let k = choose|k: int| 0 <= k < b@.len() && b@[k] == x;
                assert(a@.to_multiset().count(b@[k]) == b@.to_multiset().count(b@[k]));
            } else {
                assert(a@.to_multiset().count(x) == 0 && b@.to_multiset().count(x) == 0);
            }
        }
        assert(a@.to_multiset() =~= b@.to_multiset());
    }
    true
}

/// Whether a rotation lays the canonical set onto the actual one.
pub open spec fn rot_matches(r: Rotation, canon: Seq<IVec3>, actual: Seq<IVec3>) -> bool {
    unordered_eq(rotated_seq(r, canon), actual)
}

/// The first rotation in the list that matches, or identity when none does.
pub open spec fn first_match(rots: Seq<Rotation>, canon: Seq<IVec3>, actual: Seq<IVec3>) -> Rotation
    decreases rots.len(),
{
    if rots.len() == 0 {
        identity_rot()
    } else if rot_matches(rots[0], canon, actual) {
        rots[0]
    } else {
        first_match(rots.drop_first(), canon, actual)
    }
}

/// The orientation the classifier picks: the first matching cube rotation
/// in enumeration order, identity for the empty pattern or when no rotation
/// matches.
pub open spec fn find_rot_spec(canon: Seq<IVec3>, actual: Seq<IVec3>) -> Rotation {
    if canon.len() == 0 && actual.len() == 0 {
        identity_rot()
    } else {
        first_match(cube_rotations(), canon, actual)
    }
}

fn rotate_all(r: Rotation, canon: &Vec<IVec3>) -> (v: Vec<IVec3>)
    requires
        r.bounded(),
        forall|i: int| 0 <= i < canon@.len() ==> (#[trigger] canon@[i]).bounded(),
    ensures
        v@ == rotated_seq(r, canon@),
{
    let mut v: Vec<IVec3> = Vec::new();
    let mut i: usize = 0;
    while i < canon.len()
        invariant
            i <= canon@.len(),
            r.bounded(),
            forall|k: int| 0 <= k < canon@.len() ==> (#[trigger] canon@[k]).bounded(),
            v@ =~= rotated_seq(r, canon@.take(i as int)),
        decreases canon@.len() - i,
    {
        v.push(rotate_dir(r, canon[i]));
        proof {
            assert(canon@.take(i as int + 1).drop_last() =~= canon@.take(i as int));
            assert(v@ =~= rotated_seq(r, canon@.take(i as int + 1)));
        }
        i = i + 1;
    }
    proof {
        assert(canon@.take(canon@.len() as int) =~= canon@);
    }
    v
}

/// Finds the first rotation, in the fixed enumeration order, that lays the
/// canonical set onto the actual one; identity when none matches.
pub fn find_rotation(canon: &Vec<IVec3>, actual: &Vec<IVec3>) -> (r: Rotation)
    requires
        forall|i: int| 0 <= i < canon@.len() ==> (#[trigger] canon@[i]).bounded(),
    ensures
        r == find_rot_spec(canon@, actual@),
{
    if canon.len() == 0 && actual.len() == 0 {
        return Rotation::identity();
    }

    let rots = all_cube_rotations();
    proof {
        assert(rots@.skip(0) =~= rots@);
    }
    let mut i: usize = 0;
    while i < rots.len()
        invariant
            i <= rots@.len(),
            rots@ == cube_rotations(),
            forall|k: int| 0 <= k < rots@.len() ==> (#[trigger] rots@[k]).bounded(),
            forall|k: int| 0 <= k < canon@.len() ==> (#[trigger] canon@[k]).bounded(),
            first_match(rots@.skip(i as int), canon@, actual@) == first_match(
                rots@,
                canon@,
                actual@,
            ),
            !(canon@.len() == 0 && actual@.len() == 0),
        decreases rots@.len() - i,
    {
        let rotated = rotate_all(rots[i], canon);
        proof {
            assert(rots@.skip(i as int)[0] == rots@[i as int]);
        }
        if set_eq(&rotated, actual) {
            return rots[i];
        }
        proof {
            assert(rots@.skip(i as int).drop_first() =~= rots@.skip(i as int + 1));
        }
        i = i + 1;
    }
    proof {
        assert(rots@.skip(rots@.len() as int).len() == 0);
    }
    Rotation::identity()
}

/// The classification a neighborhood gets: its shape, and the first cube
/// rotation that lays the shape's canonical connection set onto the actual
/// occupied directions.
pub open spec fn classify_spec(nei: Neighbors) -> (TileKind, Rotation) {
    let conns = conn_seq(nei);
    let kind = kind_of_conns(conns);
    (kind, find_rot_spec(canonical_spec(kind), conns))
}

/// Maps a neighborhood connectivity pattern to (tile shape, orientation).
/// The result is a function of the neighborhood alone.
pub fn classify(nei: Neighbors) -> (r: (TileKind, Rotation))
    ensures
        r == classify_spec(nei),
{
    let actual_conns = conn_dirs(nei);
    let kind = kind_from_conns(&actual_conns);
    let canon = canonical_conns(kind);
    let rot = find_rotation(&canon, &actual_conns);
    (kind, rot)
}

proof fn lemma_first_match_in(rots: Seq<Rotation>, canon: Seq<IVec3>, actual: Seq<IVec3>)
    ensures
        first_match(rots, canon, actual) == identity_rot() || rots.contains(
            first_match(rots, canon, actual),
        ),
    decreases rots.len(),
{
    if rots.len() > 0 {
        if rot_matches(rots[0], canon, actual) {
        } else {
            lemma_first_match_in(rots.drop_first(), canon, actual);
            if first_match(rots, canon, actual) != identity_rot() {
                let i = choose|i: int|
                    0 <= i < rots.drop_first().len() && rots.drop_first()[i] == first_match(
                        rots,
                        canon,
                        actual,
                    );
                assert(rots[i + 1] == first_match(rots, canon, actual));
            }
        }
    }
}

/// The orientation is always one of the 24 enumerated cube rotations, or
/// the identity fallback.
pub proof fn lemma_classify_rot_enumerated(nei: Neighbors)
    ensures
        classify_spec(nei).1 == identity_rot() || cube_rotations().contains(classify_spec(nei).1),
{
    let conns = conn_seq(nei);
    let kind = kind_of_conns(conns);
    if !(canonical_spec(kind).len() == 0 && conns.len() == 0) {
        lemma_first_match_in(cube_rotations(), canonical_spec(kind), conns);
    }
}

/// Classification is deterministic: equal neighborhoods classify alike.
pub proof fn lemma_classify_deterministic(a: Neighbors, b: Neighbors)
    requires
        a == b,
    ensures
        classify_spec(a) == classify_spec(b),
{
}

/// The shape counting law: the shape is Solo, End, Straight, Corner, Tee
/// or Cross exactly as the occupied-direction count (and, at two, the
/// antiparallel test) says.
pub proof fn lemma_shape_counting(nei: Neighbors)
    ensures
        classify_spec(nei).0 == TileKind::Solo <==> conn_seq(nei).len() == 0,
        classify_spec(nei).0 == TileKind::End <==> conn_seq(nei).len() == 1,
        classify_spec(nei).0 == TileKind::Straight <==> (conn_seq(nei).len() == 2 && opposite(
            conn_seq(nei)[0],
            conn_seq(nei)[1],
        )),
        classify_spec(nei).0 == TileKind::Corner <==> (conn_seq(nei).len() == 2 && !opposite(
            conn_seq(nei)[0],
            conn_seq(nei)[1],
        )),
        classify_spec(nei).0 == TileKind::Tee <==> conn_seq(nei).len() == 3,
        classify_spec(nei).0 == TileKind::Cross <==> conn_seq(nei).len() >= 4,
{
}

proof fn lemma_first_match_finds(rots: Seq<Rotation>, canon: Seq<IVec3>, actual: Seq<IVec3>)
    requires
        exists|i: int| 0 <= i < rots.len() && rot_matches(#[trigger] rots[i], canon, actual),
    ensures
        rot_matches(first_match(rots, canon, actual), canon, actual),
    decreases rots.len(),
{
    if !rot_matches(rots[0], canon, actual) {
        let i = choose|i: int| 0 <= i < rots.len() && rot_matches(#[trigger] rots[i], canon, actual);
        assert(rots.drop_first()[i - 1] == rots[i]);
        lemma_first_match_finds(rots.drop_first(), canon, actual);
    }
}

/// Correctness by construction: whenever some cube rotation lays the
/// returned shape's canonical set onto the occupied-direction set, the
/// returned orientation does so itself — the rotated canonical directions
/// are the occupied directions, multiplicities included, hence also as an
/// unordered set. Neighborhoods whose pattern no rotation can cover are
/// outside this statement and get the identity fallback: five or six
/// occupied directions against the four-direction Cross canon, and three
/// mutually orthogonal directions against the T-shaped Tee canon.
pub proof fn lemma_classify_matches(nei: Neighbors)
    requires
        exists|i: int|
            0 <= i < cube_rotations().len() && rot_matches(
                #[trigger] cube_rotations()[i],
                canonical_spec(classify_spec(nei).0),
                conn_seq(nei),
            ),
    ensures
        unordered_eq(
            rotated_seq(classify_spec(nei).1, canonical_spec(classify_spec(nei).0)),
            conn_seq(nei),
        ),
        rotated_seq(classify_spec(nei).1, canonical_spec(classify_spec(nei).0)).to_set()
            == conn_seq(nei).to_set(),
{
    let kind = classify_spec(nei).0;
    let canon = canonical_spec(kind);
    let actual = conn_seq(nei);
    if canon.len() == 0 && actual.len() == 0 {
        assert(rotated_seq(identity_rot(), canon) =~= actual);
    } else {
        lemma_first_match_finds(cube_rotations(), canon, actual);
    }
    let rotated = rotated_seq(classify_spec(nei).1, canon);
    rotated.to_multiset_ensures();
    actual.to_multiset_ensures();
    assert(rotated.to_set() =~= actual.to_set()) by {
        assert forall|x: IVec3| rotated.to_set().contains(x) == actual.to_set().contains(x) by {
            assert(rotated.contains(x) <==> rotated.to_multiset().count(x) > 0);
            assert(actual.contains(x) <==> actual.to_multiset().count(x) > 0);
        }
    }
}

} // verus!

