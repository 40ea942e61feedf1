//! The surface of the materials in a voxel grid.
//!
//! Only the faces at the border of the grid, and those between two voxels of different materials,
//! are part of the surface: any other face is hidden between its neighbours.
use crate::double::Double;
use crate::postproc::distinct::{
    ascending, distinct, distinct_keeps_values, distinct_sorted_values, distinct_values_ascend,
    lemma_order_key, order_key, order_keys,
};
use crate::postproc::vtkio::{Grid, VtkGrid};
use crate::sorting::{in_order, ranking, ranking_is_an_order};
use vstd::arithmetic::mul::*;
use vstd::prelude::*;

verus! {

/// The sides of a voxel.
#[derive(Clone, Copy, PartialEq, Eq, Structural, Debug)]
pub enum Side {
    East,
    West,
    North,
    South,
    Top,
    Bottom,
}

/// The side in place `i` of the order in which the faces of a voxel are drawn.
pub open spec fn side(i: int) -> Side {
    if i == 0 {
        Side::East
    } else if i == 1 {
        Side::West
    } else if i == 2 {
        Side::North
    } else if i == 3 {
        Side::South
    } else if i == 4 {
        Side::Top
    } else {
        Side::Bottom
    }
}

fn side_at(i: usize) -> (r: Side)
    ensures
        r == side(i as int),
{
    match i {
        0 => Side::East,
        1 => Side::West,
        2 => Side::North,
        3 => Side::South,
        4 => Side::Top,
        _ => Side::Bottom,
    }
}

impl Side {
    /// The direction that the side looks in.
    pub open spec fn direction(self) -> (int, int, int) {
        match self {
            Side::East => (1, 0, 0),
            Side::West => (-1, 0, 0),
            Side::North => (0, 1, 0),
            Side::South => (0, -1, 0),
            Side::Top => (0, 0, 1),
            Side::Bottom => (0, 0, -1),
        }
    }

    /// The side that looks the other way.
    pub open spec fn back(self) -> Side {
        match self {
            Side::East => Side::West,
            Side::West => Side::East,
            Side::North => Side::South,
            Side::South => Side::North,
            Side::Top => Side::Bottom,
            Side::Bottom => Side::Top,
        }
    }

    /// The normal of the side.
    pub fn normal(self) -> (r: [i8; 3])
        ensures
            (r[0] as int, r[1] as int, r[2] as int) == self.direction(),
    {
        match self {
            Side::East => [1, 0, 0],
            Side::West => [-1, 0, 0],
            Side::North => [0, 1, 0],
            Side::South => [0, -1, 0],
            Side::Top => [0, 0, 1],
            Side::Bottom => [0, 0, -1],
        }
    }

    /// The four corners of the side on a unit cube, in the order in which they go round it.
    pub open spec fn around(self) -> Seq<Seq<u8>> {
        match self {
            Side::East => seq![seq![1, 0, 0], seq![1, 1, 0], seq![1, 1, 1], seq![1, 0, 1]],
            Side::West => seq![seq![0, 0, 0], seq![0, 0, 1], seq![0, 1, 1], seq![0, 1, 0]],
            Side::North => seq![seq![0, 1, 0], seq![0, 1, 1], seq![1, 1, 1], seq![1, 1, 0]],
            Side::South => seq![seq![0, 0, 0], seq![1, 0, 0], seq![1, 0, 1], seq![0, 0, 1]],
            Side::Top => seq![seq![0, 0, 1], seq![1, 0, 1], seq![1, 1, 1], seq![0, 1, 1]],
            Side::Bottom => seq![seq![0, 0, 0], seq![0, 1, 0], seq![1, 1, 0], seq![1, 0, 0]],
        }
    }

    /// The four corners of the side on a unit cube, in the order in which they go round it.
    pub fn corners(self) -> (r: [[u8; 3]; 4])
        ensures
            r[0]@ == self.around()[0],
            r[1]@ == self.around()[1],
            r[2]@ == self.around()[2],
            r[3]@ == self.around()[3],
    {
        match self {
            Side::East => [[1, 0, 0], [1, 1, 0], [1, 1, 1], [1, 0, 1]],
            Side::West => [[0, 0, 0], [0, 0, 1], [0, 1, 1], [0, 1, 0]],
            Side::North => [[0, 1, 0], [0, 1, 1], [1, 1, 1], [1, 1, 0]],
            Side::South => [[0, 0, 0], [1, 0, 0], [1, 0, 1], [0, 0, 1]],
            Side::Top => [[0, 0, 1], [1, 0, 1], [1, 1, 1], [0, 1, 1]],
            Side::Bottom => [[0, 0, 0], [0, 1, 0], [1, 1, 0], [1, 0, 0]],
        }
    }

    /// The corners of the two triangles that make up the side.
    pub fn triangles(self) -> (r: [[u8; 3]; 6])
        ensures
            r[0]@ == self.around()[0],
            r[1]@ == self.around()[1],
            r[2]@ == self.around()[2],
            r[3]@ == self.around()[0],
            r[4]@ == self.around()[2],
            r[5]@ == self.around()[3],
    {
        let c: [[u8; 3]; 4] = self.corners();
        [c[0], c[1], c[2], c[0], c[2], c[3]]
    }
}

/// A face of the surface: a side of the voxel at `x`, `y`, `z`, whose material is the one in place
/// `ordinal` of the legend.
#[derive(Clone, Copy, PartialEq, Eq, Structural, Debug)]
pub struct Face {
    pub x: usize,
    pub y: usize,
    pub z: usize,
    pub side: Side,
    pub ordinal: usize,
}

/// The surface of the materials in a grid, and the materials that are in it.
pub struct Surface {
    pub faces: Vec<Face>,
    /// The values of the materials, in ascending order.
    pub legend: Vec<Double>,
}

/// Whether a grid has a value for each voxel.
pub open spec fn is_complete(g: Grid) -> bool {
    g.nx * g.ny * g.nz <= g.data.len()
}

/// The value of a voxel.
pub open spec fn voxel(g: Grid, x: int, y: int, z: int) -> Double {
    g.data[x + g.nx * (y + g.ny * z)]
}

/// Whether there is a voxel at the given place.
pub open spec fn is_inside(g: Grid, x: int, y: int, z: int) -> bool {
    0 <= x < g.nx && 0 <= y < g.ny && 0 <= z < g.nz
}

/// Whether a side of a voxel is part of the surface: there is no voxel before it, or one of
/// another material.
pub open spec fn is_drawn(g: Grid, x: int, y: int, z: int, s: Side) -> bool {
    let d = s.direction();
    !is_inside(g, x + d.0, y + d.1, z + d.2) || !voxel(g, x + d.0, y + d.1, z + d.2).is_same(
        voxel(g, x, y, z),
    )
}

/// The place of a value in the legend: that of the first material whose value is not below it.
pub open spec fn ordinal_of(ids: Seq<Double>, v: Double) -> nat
    decreases ids.len(),
{
    if ids.len() == 0 || !ids[0].is_below(v) {
        0
    } else {
        1 + ordinal_of(ids.skip(1), v)
    }
}

/// The face on the given side of a voxel.
pub open spec fn face_of(g: Grid, ids: Seq<Double>, x: int, y: int, z: int, s: Side) -> Face {
    Face {
        x: x as usize,
        y: y as usize,
        z: z as usize,
        side: s,
        ordinal: ordinal_of(ids, voxel(g, x, y, z)) as usize,
    }
}

/// The faces on the first `k` sides of a voxel.
pub open spec fn voxel_faces(g: Grid, ids: Seq<Double>, x: int, y: int, z: int, k: nat) -> Seq<Face>
    decreases k,
{
    if k == 0 {
        Seq::empty()
    } else {
        let before = voxel_faces(g, ids, x, y, z, (k - 1) as nat);
        if is_drawn(g, x, y, z, side(k - 1)) {
            before.push(face_of(g, ids, x, y, z, side(k - 1)))
        } else {
            before
        }
    }
}

/// The faces of the first `k` voxels of a row.
pub open spec fn row_faces(g: Grid, ids: Seq<Double>, y: int, z: int, k: nat) -> Seq<Face>
    decreases k,
{
    if k == 0 {
        Seq::empty()
    } else {
        row_faces(g, ids, y, z, (k - 1) as nat) + voxel_faces(g, ids, k - 1, y, z, 6)
    }
}

/// The faces of the first `k` rows of a layer.
pub open spec fn layer_faces(g: Grid, ids: Seq<Double>, z: int, k: nat) -> Seq<Face>
    decreases k,
{
    if k == 0 {
        Seq::empty()
    } else {
        layer_faces(g, ids, z, (k - 1) as nat) + row_faces(g, ids, k - 1, z, g.nx as nat)
    }
}

/// The faces of the first `k` layers.
pub open spec fn faces_of(g: Grid, ids: Seq<Double>, k: nat) -> Seq<Face>
    decreases k,
{
    if k == 0 {
        Seq::empty()
    } else {
        faces_of(g, ids, (k - 1) as nat) + layer_faces(g, ids, k - 1, g.ny as nat)
    }
}

/// Where the voxel at `x`, `y`, `z` stands in the data.
pub proof fn lemma_place(nx: int, ny: int, nz: int, x: int, y: int, z: int)
    requires
        0 <= x < nx,
        0 <= y < ny,
        0 <= z < nz,
    ensures
        0 <= ny * z,
        0 <= y + ny * z < ny * nz,
        0 <= nx * (y + ny * z),
        0 <= x + nx * (y + ny * z) < nx * ny * nz,
        ny * nz <= nx * ny * nz,
{
    assert(0 <= ny * z) by (nonlinear_arith)
        requires
            ny >= 0,
            z >= 0,
    ;
    assert(ny * z + ny <= ny * nz) by (nonlinear_arith)
        requires
            z + 1 <= nz,
            ny >= 0,
    ;
    let r = y + ny * z;
    let n = ny * nz;
    assert(0 <= nx * r) by (nonlinear_arith)
        requires
            nx >= 0,
            r >= 0,
    ;
    assert(nx * r + nx <= nx * n) by (nonlinear_arith)
        requires
            r + 1 <= n,
            nx >= 0,
    ;
    assert(n <= nx * n) by (nonlinear_arith)
        requires
            nx >= 1,
            n >= 0,
    ;
    lemma_mul_is_associative(nx, ny, nz);
}

fn get_voxel(grid: &VtkGrid, x: usize, y: usize, z: usize) -> (r: Double)
    requires
        is_complete(grid@),
        is_inside(grid@, x as int, y as int, z as int),
    ensures
        r == voxel(grid@, x as int, y as int, z as int),
{
    let len: usize = grid.data.len();
    proof {
        lemma_place(
            grid.nx as int,
            grid.ny as int,
            grid.nz as int,
            x as int,
            y as int,
            z as int,
        );
    }
    grid.data[x + grid.nx * (y + grid.ny * z)]
}

/// Whether the voxel that a step leads to is there and of another material, or not there.
fn drawn(grid: &VtkGrid, x: usize, y: usize, z: usize, s: Side, id: Double) -> (r: bool)
    requires
        is_complete(grid@),
        is_inside(grid@, x as int, y as int, z as int),
        id == voxel(grid@, x as int, y as int, z as int),
    ensures
        r == is_drawn(grid@, x as int, y as int, z as int, s),
{
    match s {
        Side::East => x + 1 >= grid.nx || !get_voxel(grid, x + 1, y, z).same(id),
        Side::West => x == 0 || !get_voxel(grid, x - 1, y, z).same(id),
        Side::North => y + 1 >= grid.ny || !get_voxel(grid, x, y + 1, z).same(id),
        Side::South => y == 0 || !get_voxel(grid, x, y - 1, z).same(id),
        Side::Top => z + 1 >= grid.nz || !get_voxel(grid, x, y, z + 1).same(id),
        Side::Bottom => z == 0 || !get_voxel(grid, x, y, z - 1).same(id),
    }
}

/// Whether what lies below a value comes first.
spec fn is_parted(ids: Seq<Double>, v: Double) -> bool {
    forall|i: int, j: int|
        0 <= i < j < ids.len() && (#[trigger] ids[j]).is_below(v) ==> (#[trigger] ids[i]).is_below(
            v,
        )
}

proof fn lemma_ordinal(ids: Seq<Double>, v: Double, k: nat)
    requires
        k <= ids.len(),
        forall|i: int| 0 <= i < k ==> (#[trigger] ids[i]).is_below(v),
        k < ids.len() ==> !ids[k as int].is_below(v),
    ensures
        ordinal_of(ids, v) == k,
    decreases ids.len(),
{
    if k > 0 {
        assert(ids[0].is_below(v));
        let rest = ids.skip(1);
        assert forall|i: int| 0 <= i < k - 1 implies (#[trigger] rest[i]).is_below(v) by {
            assert(rest[i] == ids[i + 1]);
        }
        if k < ids.len() {
            assert(rest[k - 1] == ids[k as int]);
        }
        lemma_ordinal(rest, v, (k - 1) as nat);
    }
}

/// The values in ascending order are parted by any value.
proof fn lemma_parted(values: Seq<Double>, v: Double)
    requires
        values.len() <= usize::MAX,
    ensures
        is_parted(ascending(values), v),
        ascending(values).len() == values.len(),
{
    let keys = order_keys(values);
    let order = ranking(keys);
    let r = ascending(values);
    ranking_is_an_order(keys);
    assert forall|i: int, j: int|
        0 <= i < j < r.len() && (#[trigger] r[j]).is_below(v) implies (#[trigger] r[i]).is_below(
        v,
    ) by {
        assert(in_order()(order[i], order[j]));
        assert(order_key(r[i]) == order[i].key);
        assert(order_key(r[j]) == order[j].key);
        if r[i].is_nan() {
            assert(order_key(r[j]) < u64::MAX);
        } else {
            lemma_order_key(r[i], r[j]);
            lemma_order_key(r[j], v);
            lemma_order_key(r[i], v);
        }
    }
}

/// The place of a value in the legend, by halving.
fn find_ordinal(ids: &Vec<Double>, v: Double) -> (r: usize)
    requires
        is_parted(ids@, v),
    ensures
        r == ordinal_of(ids@, v),
        ids@.contains(v) ==> r < ids@.len(),
{
    let mut low: usize = 0;
    let mut high: usize = ids.len();
    while low < high
        invariant
            low <= high <= ids@.len(),
            is_parted(ids@, v),
            forall|i: int| 0 <= i < low ==> (#[trigger] ids@[i]).is_below(v),
            forall|i: int| high <= i < ids@.len() ==> !(#[trigger] ids@[i]).is_below(v),
        decreases high - low,
    {
        let mid: usize = low + (high - low) / 2;
        if ids[mid].below(v) {
            low = mid + 1;
        } else {
            high = mid;
        }
    }
    proof {
        lemma_ordinal(ids@, v, low as nat);
        if ids@.contains(v) {
            let p = choose|p: int| 0 <= p < ids@.len() && ids@[p] == v;
            assert(!ids@[p].is_below(v));
        }
    }
    low
}

/// Finds the surface of the materials in a grid.
pub fn find_surface(grid: &VtkGrid) -> (r: Surface)
    requires
        is_complete(grid@),
    ensures
        r.legend@ == ascending(distinct(grid@.data)),
        r.faces@ == faces_of(grid@, r.legend@, grid.nz as nat),
        forall|i: int|
            0 <= i < r.faces@.len() ==> (#[trigger] r.faces@[i]).ordinal < r.legend@.len(),
{
    let ids: Vec<Double> = distinct_sorted_values(&grid.data);
    let ghost g = grid@;
    let len: usize = grid.data.len();
    proof {
        distinct_keeps_values(g.data);
        distinct_values_ascend(g.data);
        assert forall|v: Double| #[trigger] is_parted(ids@, v) by {
            lemma_parted(distinct(g.data), v);
        }
    }
    let mut faces: Vec<Face> = Vec::new();
    let mut iz: usize = 0;
    assert(faces@ =~= faces_of(g, ids@, 0));
    while iz < grid.nz
        invariant
            iz <= grid.nz,
            g == grid@,
            is_complete(g),
            forall|v: Double| #[trigger] is_parted(ids@, v),
            forall|v: Double| #[trigger] ids@.contains(v) <==> g.data.contains(v),
            forall|i: int|
                0 <= i < faces@.len() ==> (#[trigger] faces@[i]).ordinal < ids@.len(),
            faces@ == faces_of(g, ids@, iz as nat),
        decreases grid.nz - iz,
    {
        let ghost layers = faces@;
        let mut iy: usize = 0;
        assert(layers + layer_faces(g, ids@, iz as int, 0) =~= layers);
        while iy < grid.ny
            invariant
                iz < grid.nz,
                iy <= grid.ny,
                g == grid@,
                is_complete(g),
                forall|v: Double| #[trigger] is_parted(ids@, v),
                forall|v: Double| #[trigger] ids@.contains(v) <==> g.data.contains(v),
                forall|i: int|
                    0 <= i < faces@.len() ==> (#[trigger] faces@[i]).ordinal < ids@.len(),
                faces@ == layers + layer_faces(g, ids@, iz as int, iy as nat),
            decreases grid.ny - iy,
        {
            let ghost rows = faces@;
            let mut ix: usize = 0;
            assert(rows + row_faces(g, ids@, iy as int, iz as int, 0) =~= rows);
            while ix < grid.nx
                invariant
                    iz < grid.nz,
                    iy < grid.ny,
                    ix <= grid.nx,
                    g == grid@,
                    is_complete(g),
                    forall|v: Double| #[trigger] is_parted(ids@, v),
                    forall|v: Double| #[trigger] ids@.contains(v) <==> g.data.contains(v),
                    forall|i: int|
                        0 <= i < faces@.len() ==> (#[trigger] faces@[i]).ordinal < ids@.len(),
                    faces@ == rows + row_faces(g, ids@, iy as int, iz as int, ix as nat),
                decreases grid.nx - ix,
            {
                let ghost voxels = faces@;
                let id: Double = get_voxel(grid, ix, iy, iz);
                proof {
                    lemma_place(
                        g.nx as int,
                        g.ny as int,
                        g.nz as int,
                        ix as int,
                        iy as int,
                        iz as int,
                    );
                    assert(g.data.contains(id));
                    assert(is_parted(ids@, id));
                }
                let ordinal: usize = find_ordinal(&ids, id);
                let mut k: usize = 0;
                assert(voxels + voxel_faces(g, ids@, ix as int, iy as int, iz as int, 0)
                    =~= voxels);
                while k < 6
                    invariant
                        iz < grid.nz,
                        iy < grid.ny,
                        ix < grid.nx,
                        k <= 6,
                        g == grid@,
                        is_complete(g),
                        id == voxel(g, ix as int, iy as int, iz as int),
                        ordinal == ordinal_of(ids@, id),
                        ordinal < ids@.len(),
                        forall|i: int|
                            0 <= i < faces@.len() ==> (#[trigger] faces@[i]).ordinal < ids@.len(),
                        faces@ == voxels + voxel_faces(
                            g,
                            ids@,
                            ix as int,
                            iy as int,
                            iz as int,
                            k as nat,
                        ),
                    decreases 6 - k,
                {
                    let s: Side = side_at(k);
                    if drawn(grid, ix, iy, iz, s, id) {
                        faces.push(Face { x: ix, y: iy, z: iz, side: s, ordinal });
                    }
                    k += 1;
                    assert(faces@ =~= voxels + voxel_faces(
                        g,
                        ids@,
                        ix as int,
                        iy as int,
                        iz as int,
                        k as nat,
                    ));
                }
                ix += 1;
                assert(faces@ =~= rows + row_faces(g, ids@, iy as int, iz as int, ix as nat));
            }
            iy += 1;
            assert(faces@ =~= layers + layer_faces(g, ids@, iz as int, iy as nat));
        }
        iz += 1;
        assert(faces@ =~= faces_of(g, ids@, iz as nat));
    }
    Surface { faces, legend: ids }
}

/// Whether a grid has a value for each voxel.
pub fn complete(grid: &VtkGrid) -> (r: bool)
    ensures
        r == is_complete(grid@),
{
    let len: usize = grid.data.len();
    if grid.nx == 0 || grid.ny == 0 || grid.nz == 0 {
        proof {
            let (a, b, c) = (grid.nx as int, grid.ny as int, grid.nz as int);
            assert(a * b * c == 0) by (nonlinear_arith)
                requires
                    a == 0 || b == 0 || c == 0,
            ;
        }
        return true;
    }
    let rows: usize = len / grid.nx;
    let layers: usize = rows / grid.ny;
    proof {
        let (a, b, c) = (grid.nx as int, grid.ny as int, grid.nz as int);
        let n = len as int;
        let (p, q) = (rows as int, layers as int);
        assert(a * (b * c) == a * b * c) by (nonlinear_arith);
        assert(b * c <= p <==> a * (b * c) <= n) by (nonlinear_arith)
            requires
                a > 0,
                p == n / a,
        ;
        assert(c <= q <==> b * c <= p) by (nonlinear_arith)
            requires
                b > 0,
                q == p / b,
        ;
    }
    grid.nz <= layers
}

/// A face between two voxels is part of the surface from both sides or from none.
pub proof fn interfaces_have_two_faces(g: Grid, x: int, y: int, z: int, s: Side)
    requires
        is_inside(g, x, y, z),
        is_inside(g, x + s.direction().0, y + s.direction().1, z + s.direction().2),
    ensures
        ({
            let d = s.direction();
            is_drawn(g, x, y, z, s) <==> is_drawn(g, x + d.0, y + d.1, z + d.2, s.back())
        }),
{
}

/// The direction of a product of two edges.
pub open spec fn cross(u: (int, int, int), v: (int, int, int)) -> (int, int, int) {
    (u.1 * v.2 - u.2 * v.1, u.2 * v.0 - u.0 * v.2, u.0 * v.1 - u.1 * v.0)
}

/// The edge from one corner to another.
pub open spec fn edge(a: Seq<u8>, b: Seq<u8>) -> (int, int, int) {
    (b[0] - a[0], b[1] - a[1], b[2] - a[2])
}

/// The corners of each side go round it so that the side looks outward: the product of two edges
/// from its first corner is its direction, in both of its triangles.
pub proof fn sides_look_outward(s: Side)
    ensures
        cross(edge(s.around()[0], s.around()[1]), edge(s.around()[0], s.around()[2]))
            == s.direction(),
        cross(edge(s.around()[0], s.around()[2]), edge(s.around()[0], s.around()[3]))
            == s.direction(),
{
    let a = s.around();
    match s {
        Side::East => {
            assert(edge(a[0], a[1]) == (0int, 1int, 0int));
            assert(edge(a[0], a[2]) == (0int, 1int, 1int));
            assert(edge(a[0], a[3]) == (0int, 0int, 1int));
            assert(cross((0int, 1int, 0int), (0int, 1int, 1int)) == (1int, 0int, 0int))
                by (nonlinear_arith);
            assert(cross((0int, 1int, 1int), (0int, 0int, 1int)) == (1int, 0int, 0int))
                by (nonlinear_arith);
        },
        Side::West => {
            assert(edge(a[0], a[1]) == (0int, 0int, 1int));
            assert(edge(a[0], a[2]) == (0int, 1int, 1int));
            assert(edge(a[0], a[3]) == (0int, 1int, 0int));
            assert(cross((0int, 0int, 1int), (0int, 1int, 1int)) == (-1int, 0int, 0int))
                by (nonlinear_arith);
            assert(cross((0int, 1int, 1int), (0int, 1int, 0int)) == (-1int, 0int, 0int))
                by (nonlinear_arith);
        },
        Side::North => {
            assert(edge(a[0], a[1]) == (0int, 0int, 1int));
            assert(edge(a[0], a[2]) == (1int, 0int, 1int));
            assert(edge(a[0], a[3]) == (1int, 0int, 0int));
            assert(cross((0int, 0int, 1int), (1int, 0int, 1int)) == (0int, 1int, 0int))
                by (nonlinear_arith);
            assert(cross((1int, 0int, 1int), (1int, 0int, 0int)) == (0int, 1int, 0int))
                by (nonlinear_arith);
        },
        Side::South => {
            assert(edge(a[0], a[1]) == (1int, 0int, 0int));
            assert(edge(a[0], a[2]) == (1int, 0int, 1int));
            assert(edge(a[0], a[3]) == (0int, 0int, 1int));
            assert(cross((1int, 0int, 0int), (1int, 0int, 1int)) == (0int, -1int, 0int))
                by (nonlinear_arith);
            assert(cross((1int, 0int, 1int), (0int, 0int, 1int)) == (0int, -1int, 0int))
                by (nonlinear_arith);
        },
        Side::Top => {
            assert(edge(a[0], a[1]) == (1int, 0int, 0int));
            assert(edge(a[0], a[2]) == (1int, 1int, 0int));
            assert(edge(a[0], a[3]) == (0int, 1int, 0int));
            assert(cross((1int, 0int, 0int), (1int, 1int, 0int)) == (0int, 0int, 1int))
                by (nonlinear_arith);
            assert(cross((1int, 1int, 0int), (0int, 1int, 0int)) == (0int, 0int, 1int))
                by (nonlinear_arith);
        },
        Side::Bottom => {
            assert(edge(a[0], a[1]) == (0int, 1int, 0int));
            assert(edge(a[0], a[2]) == (1int, 1int, 0int));
            assert(edge(a[0], a[3]) == (1int, 0int, 0int));
            assert(cross((0int, 1int, 0int), (1int, 1int, 0int)) == (0int, 0int, -1int))
                by (nonlinear_arith);
            assert(cross((1int, 1int, 0int), (1int, 0int, 0int)) == (0int, 0int, -1int))
                by (nonlinear_arith);
        },
    }
}

proof fn lemma_voxel_faces(g: Grid, ids: Seq<Double>, x: int, y: int, z: int, k: nat, f: Face)
    requires
        is_inside(g, x, y, z),
        k <= 6,
    ensures
        voxel_faces(g, ids, x, y, z, k).contains(f) <==> exists|i: int|
            0 <= i < k && is_drawn(g, x, y, z, #[trigger] side(i)) && f == face_of(
                g,
                ids,
                x,
                y,
                z,
                side(i),
            ),
    decreases k,
{
    if k > 0 {
        let before = voxel_faces(g, ids, x, y, z, (k - 1) as nat);
        let all = voxel_faces(g, ids, x, y, z, k);
        lemma_voxel_faces(g, ids, x, y, z, (k - 1) as nat, f);
        if all.contains(f) {
            let j = choose|j: int| 0 <= j < all.len() && all[j] == f;
            if j < before.len() {
                assert(before[j] == f);
                assert(before.contains(f));
            } else {
                assert(is_drawn(g, x, y, z, side(k - 1)));
            }
        }
        if exists|i: int|
            0 <= i < k && is_drawn(g, x, y, z, #[trigger] side(i)) && f == face_of(
                g,
                ids,
                x,
                y,
                z,
                side(i),
            ) {
            let i = choose|i: int|
                0 <= i < k && is_drawn(g, x, y, z, #[trigger] side(i)) && f == face_of(
                    g,
                    ids,
                    x,
                    y,
                    z,
                    side(i),
                );
            if i < k - 1 {
                assert(before.contains(f));
                let j = choose|j: int| 0 <= j < before.len() && before[j] == f;
                assert(all[j] == f);
            } else {
                assert(all[before.len() as int] == f);
            }
        }
    }
}

proof fn lemma_contains_add(a: Seq<Face>, b: Seq<Face>, f: Face)
    ensures
        (a + b).contains(f) <==> a.contains(f) || b.contains(f),
{
    if a.contains(f) {
        let j = choose|j: int| 0 <= j < a.len() && a[j] == f;
        assert((a + b)[j] == f);
    }
    if b.contains(f) {
        let j = choose|j: int| 0 <= j < b.len() && b[j] == f;
        assert((a + b)[a.len() + j] == f);
    }
}

/// Whether `f` is the face of a voxel and part of the surface.
pub open spec fn is_surface_face(g: Grid, ids: Seq<Double>, f: Face) -> bool {
    let (x, y, z) = (f.x as int, f.y as int, f.z as int);
    is_inside(g, x, y, z) && is_drawn(g, x, y, z, f.side) && f == face_of(
        g,
        ids,
        x,
        y,
        z,
        f.side,
    )
}

proof fn lemma_side_index(s: Side) -> (i: int)
    ensures
        0 <= i < 6,
        side(i) == s,
{
    match s {
        Side::East => 0,
        Side::West => 1,
        Side::North => 2,
        Side::South => 3,
        Side::Top => 4,
        Side::Bottom => 5,
    }
}

proof fn lemma_row_faces(g: Grid, ids: Seq<Double>, y: int, z: int, k: nat, f: Face)
    requires
        k <= g.nx,
        0 <= y < g.ny,
        0 <= z < g.nz,
    ensures
        row_faces(g, ids, y, z, k).contains(f) <==> is_surface_face(g, ids, f) && f.x < k && f.y
            == y && f.z == z,
    decreases k,
{
    if k > 0 {
        let x = k - 1;
        lemma_row_faces(g, ids, y, z, (k - 1) as nat, f);
        lemma_voxel_faces(g, ids, x, y, z, 6, f);
        lemma_contains_add(
            row_faces(g, ids, y, z, (k - 1) as nat),
            voxel_faces(g, ids, x, y, z, 6),
            f,
        );
        let i = lemma_side_index(f.side);
        assert(voxel_faces(g, ids, x, y, z, 6).contains(f) <==> is_surface_face(g, ids, f) && f.x
            == x && f.y == y && f.z == z) by {
            if is_surface_face(g, ids, f) && f.x == x && f.y == y && f.z == z {
                assert(is_drawn(g, x, y, z, side(i)));
            }
        }
    }
}

proof fn lemma_layer_faces(g: Grid, ids: Seq<Double>, z: int, k: nat, f: Face)
    requires
        k <= g.ny,
        0 <= z < g.nz,
    ensures
        layer_faces(g, ids, z, k).contains(f) <==> is_surface_face(g, ids, f) && f.y < k && f.z
            == z,
    decreases k,
{
    if k > 0 {
        lemma_layer_faces(g, ids, z, (k - 1) as nat, f);
        lemma_row_faces(g, ids, k - 1, z, g.nx as nat, f);
        lemma_contains_add(
            layer_faces(g, ids, z, (k - 1) as nat),
            row_faces(g, ids, k - 1, z, g.nx as nat),
            f,
        );
    }
}

proof fn lemma_faces(g: Grid, ids: Seq<Double>, k: nat, f: Face)
    requires
        k <= g.nz,
    ensures
        faces_of(g, ids, k).contains(f) <==> is_surface_face(g, ids, f) && f.z < k,
    decreases k,
{
    if k > 0 {
        lemma_faces(g, ids, (k - 1) as nat, f);
        lemma_layer_faces(g, ids, k - 1, g.ny as nat, f);
        lemma_contains_add(
            faces_of(g, ids, (k - 1) as nat),
            layer_faces(g, ids, k - 1, g.ny as nat),
            f,
        );
    }
}

/// A face is in the surface exactly where it belongs to a voxel and has no voxel of the same
/// material before it.
pub proof fn surface_has_the_visible_faces(g: Grid, ids: Seq<Double>, f: Face)
    ensures
        faces_of(g, ids, g.nz as nat).contains(f) <==> is_surface_face(g, ids, f),
{
    lemma_faces(g, ids, g.nz as nat, f);
}

/// Whether all voxels are of one material.
pub open spec fn is_uniform(g: Grid) -> bool {
    forall|x: int, y: int, z: int, a: int, b: int, c: int|
        is_inside(g, x, y, z) && is_inside(g, a, b, c) ==> (#[trigger] voxel(g, x, y, z)).is_same(
            #[trigger] voxel(g, a, b, c),
        )
}

/// One where a condition holds, and nothing where it does not.
pub open spec fn one_if(b: bool) -> int {
    if b {
        1
    } else {
        0
    }
}

proof fn lemma_uniform_voxel(g: Grid, ids: Seq<Double>, x: int, y: int, z: int)
    requires
        is_uniform(g),
        is_inside(g, x, y, z),
    ensures
        voxel_faces(g, ids, x, y, z, 6).len() == one_if(x == 0) + one_if(x == g.nx - 1) + one_if(
            y == 0,
        ) + one_if(y == g.ny - 1) + one_if(z == 0) + one_if(z == g.nz - 1),
{
    reveal_with_fuel(voxel_faces, 7);
    assert forall|i: int| 0 <= i < 6 implies is_drawn(g, x, y, z, #[trigger] side(i)) == !is_inside(
        g,
        x + side(i).direction().0,
        y + side(i).direction().1,
        z + side(i).direction().2,
    ) by {
        let d = side(i).direction();
        if is_inside(g, x + d.0, y + d.1, z + d.2) {
            assert(voxel(g, x + d.0, y + d.1, z + d.2).is_same(voxel(g, x, y, z)));
        }
    }
}

proof fn lemma_uniform_row(g: Grid, ids: Seq<Double>, y: int, z: int, k: nat)
    requires
        is_uniform(g),
        k <= g.nx,
        0 <= y < g.ny,
        0 <= z < g.nz,
    ensures
        row_faces(g, ids, y, z, k).len() == one_if(k > 0) + one_if(k == g.nx && k > 0) + k * (one_if(
            y == 0,
        ) + one_if(y == g.ny - 1) + one_if(z == 0) + one_if(z == g.nz - 1)),
    decreases k,
{
    let n = one_if(y == 0) + one_if(y == g.ny - 1) + one_if(z == 0) + one_if(z == g.nz - 1);
    if k > 0 {
        lemma_uniform_row(g, ids, y, z, (k - 1) as nat);
        lemma_uniform_voxel(g, ids, k - 1, y, z);
        assert(k * n == (k - 1) * n + n) by (nonlinear_arith);
    } else {
        assert(0 * n == 0);
    }
}

proof fn lemma_uniform_layer(g: Grid, ids: Seq<Double>, z: int, k: nat)
    requires
        is_uniform(g),
        g.nx > 0,
        k <= g.ny,
        0 <= z < g.nz,
    ensures
        layer_faces(g, ids, z, k).len() == 2 * k + g.nx * (one_if(k > 0) + one_if(
            k == g.ny && k > 0,
        )) + (k * g.nx) * (one_if(z == 0) + one_if(z == g.nz - 1)),
    decreases k,
{
    let nx = g.nx as int;
    let n = one_if(z == 0) + one_if(z == g.nz - 1);
    if k > 0 {
        lemma_uniform_layer(g, ids, z, (k - 1) as nat);
        lemma_uniform_row(g, ids, k - 1, z, g.nx as nat);
        let a = one_if(k - 1 == 0);
        let b = one_if(k - 1 == g.ny - 1);
        assert(nx * (a + b + n) == nx * a + nx * b + nx * n) by (nonlinear_arith);
        assert((k * nx) * n == ((k - 1) * nx) * n + nx * n) by (nonlinear_arith);
        let c = one_if(k - 1 > 0);
        let d = one_if(k - 1 == g.ny && k - 1 > 0);
        assert(nx * (c + d) == nx * c + nx * d) by (nonlinear_arith);
        let e = one_if(k == g.ny && k > 0);
        assert(nx * (1 + e) == nx + nx * e) by (nonlinear_arith);
        assert(a + c == 1 && d == 0 && b == e);
        assert(nx * a + nx * c == nx) by (nonlinear_arith)
            requires
                a + c == 1,
        ;
        assert(nx * d == 0) by (nonlinear_arith)
            requires
                d == 0,
        ;
    } else {
        assert((0 * nx) * n == 0) by (nonlinear_arith);
        assert(nx * (0 + 0) == 0);
    }
}

proof fn lemma_uniform_faces(g: Grid, ids: Seq<Double>, k: nat)
    requires
        is_uniform(g),
        g.nx > 0,
        g.ny > 0,
        k <= g.nz,
    ensures
        faces_of(g, ids, k).len() == k * (2 * g.ny + 2 * g.nx) + (g.ny * g.nx) * (one_if(k > 0)
            + one_if(k == g.nz && k > 0)),
    decreases k,
{
    let side_count = 2 * g.ny + 2 * g.nx;
    let area = g.ny * g.nx;
    if k > 0 {
        lemma_uniform_faces(g, ids, (k - 1) as nat);
        lemma_uniform_layer(g, ids, k - 1, g.ny as nat);
        let a = one_if(k - 1 == 0);
        let b = one_if(k - 1 == g.nz - 1);
        let c = one_if(k - 1 > 0);
        let d = one_if(k - 1 == g.nz && k - 1 > 0);
        let e = one_if(k == g.nz && k > 0);
        assert(k * side_count == (k - 1) * side_count + side_count) by (nonlinear_arith);
        assert(area * (a + b) == area * a + area * b) by (nonlinear_arith);
        assert(area * (c + d) == area * c + area * d) by (nonlinear_arith);
        assert(area * (1 + e) == area + area * e) by (nonlinear_arith);
        assert(a + c == 1 && d == 0 && b == e);
        assert(area * a + area * c == area) by (nonlinear_arith)
            requires
                a + c == 1,
        ;
        assert(area * d == 0) by (nonlinear_arith)
            requires
                d == 0,
        ;
        let nx = g.nx as int;
        let p = one_if(g.ny > 0) + one_if(g.ny == g.ny && g.ny > 0);
        assert(nx * p == 2 * nx) by (nonlinear_arith)
            requires
                p == 2,
        ;
    } else {
        assert(0 * side_count == 0);
        let p = one_if(k > 0) + one_if(k == g.nz && k > 0);
        assert(area * p == 0) by (nonlinear_arith)
            requires
                p == 0,
        ;
    }
}

/// The surface of a block of one material has as many faces as the block has on its six sides,
/// however many voxels are inside it.
pub proof fn uniform_surface_is_the_outside(g: Grid, ids: Seq<Double>)
    requires
        is_uniform(g),
        g.nx > 0,
        g.ny > 0,
        g.nz > 0,
    ensures
        faces_of(g, ids, g.nz as nat).len() == 2 * (g.nx * g.ny) + 2 * (g.ny * g.nz) + 2 * (g.nx
            * g.nz),
{
    let (a, b, c) = (g.nx as int, g.ny as int, g.nz as int);
    lemma_uniform_faces(g, ids, g.nz as nat);
    assert(c * (2 * b + 2 * a) == 2 * (b * c) + 2 * (a * c)) by (nonlinear_arith);
    assert((b * a) * (1 + 1) == 2 * (a * b)) by (nonlinear_arith);
}

} // verus!
