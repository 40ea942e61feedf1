//! Which faces the surface of the materials has, told by the values of the voxels.
use crate::double::Double;
use crate::postproc::distinct::{distinct, distinct_keeps_values, order_keys};
use crate::postproc::vtkio::{Grid, VtkGrid};
use crate::sorting::ranking_is_an_order;
use crate::viewer::legend::legend_holds_the_value;
use crate::viewer::surface::{
    face_of, faces_of, find_surface, is_complete, is_drawn, is_surface_face, layer_faces,
    lemma_place, row_faces, side, surface_has_the_visible_faces, voxel, voxel_faces, Face, Side,
    Surface,
};
use vstd::prelude::*;

verus! {

/// Whether a surface has a face on the given side of a voxel.
pub open spec fn has_face(surface: Surface, x: int, y: int, z: int, side: Side) -> bool {
    exists|k: int|
        0 <= k < surface.faces@.len() && (#[trigger] surface.faces@[k]).x == x
            && surface.faces@[k].y == y && surface.faces@[k].z == z && surface.faces@[k].side
            == side
}

/// Whether two numbers are equal as numbers.
pub open spec fn is_equal(a: Double, b: Double) -> bool {
    !a.is_nan() && !b.is_nan() && a.scaled() == b.scaled()
}

proof fn lemma_has_face(grid: VtkGrid, r: Surface, x: int, y: int, z: int, s: Side)
    requires
        is_complete(grid@),
        call_ensures(find_surface, (&grid,), r),
        0 <= x < grid.nx,
        0 <= y < grid.ny,
        0 <= z < grid.nz,
    ensures
        has_face(r, x, y, z, s) <==> is_drawn(grid@, x, y, z, s),
{
    let g = grid@;
    let ids = r.legend@;
    let faces = r.faces@;
    assert(faces == faces_of(g, ids, g.nz as nat));
    if is_drawn(g, x, y, z, s) {
        let f = face_of(g, ids, x, y, z, s);
        assert(is_surface_face(g, ids, f));
        surface_has_the_visible_faces(g, ids, f);
        assert(faces.contains(f));
        let k = choose|k: int| 0 <= k < faces.len() && faces[k] == f;
        assert(r.faces@[k].x == x);
    }
    if has_face(r, x, y, z, s) {
        let k = choose|k: int|
            0 <= k < r.faces@.len() && (#[trigger] r.faces@[k]).x == x && r.faces@[k].y == y
                && r.faces@[k].z == z && r.faces@[k].side == s;
        let f = faces[k];
        assert(faces.contains(f));
        surface_has_the_visible_faces(g, ids, f);
    }
}

/// A side of a voxel is part of the surface exactly where the grid ends on that side, or where the
/// voxel there has another value. The values lie with `x` running fastest and `z` slowest.
pub proof fn faces_lie_where_values_differ(grid: VtkGrid, r: Surface, x: int, y: int, z: int)
    requires
        is_complete(grid@),
        call_ensures(find_surface, (&grid,), r),
        0 <= x < grid.nx,
        0 <= y < grid.ny,
        0 <= z < grid.nz,
    ensures
        ({
            let (nx, ny, nz) = (grid.nx as int, grid.ny as int, grid.nz as int);
            let v = grid.data@[x + nx * y + nx * ny * z];
            &&& has_face(r, x, y, z, Side::East) <==> x + 1 == nx || !is_equal(
                grid.data@[x + 1 + nx * y + nx * ny * z],
                v,
            )
            &&& has_face(r, x, y, z, Side::West) <==> x == 0 || !is_equal(
                grid.data@[x - 1 + nx * y + nx * ny * z],
                v,
            )
            &&& has_face(r, x, y, z, Side::North) <==> y + 1 == ny || !is_equal(
                grid.data@[x + nx * (y + 1) + nx * ny * z],
                v,
            )
            &&& has_face(r, x, y, z, Side::South) <==> y == 0 || !is_equal(
                grid.data@[x + nx * (y - 1) + nx * ny * z],
                v,
            )
            &&& has_face(r, x, y, z, Side::Top) <==> z + 1 == nz || !is_equal(
                grid.data@[x + nx * y + nx * ny * (z + 1)],
                v,
            )
            &&& has_face(r, x, y, z, Side::Bottom) <==> z == 0 || !is_equal(
                grid.data@[x + nx * y + nx * ny * (z - 1)],
                v,
            )
        }),
{
    let (nx, ny, nz) = (grid.nx as int, grid.ny as int, grid.nz as int);
    lemma_has_face(grid, r, x, y, z, Side::East);
    lemma_has_face(grid, r, x, y, z, Side::West);
    lemma_has_face(grid, r, x, y, z, Side::North);
    lemma_has_face(grid, r, x, y, z, Side::South);
    lemma_has_face(grid, r, x, y, z, Side::Top);
    lemma_has_face(grid, r, x, y, z, Side::Bottom);
    lemma_index(nx, ny, x, y, z);
    lemma_index(nx, ny, x + 1, y, z);
    lemma_index(nx, ny, x - 1, y, z);
    lemma_index(nx, ny, x, y + 1, z);
    lemma_index(nx, ny, x, y - 1, z);
    lemma_index(nx, ny, x, y, z + 1);
    lemma_index(nx, ny, x, y, z - 1);
}

proof fn lemma_index(nx: int, ny: int, x: int, y: int, z: int)
    ensures
        x + nx * (y + ny * z) == x + nx * y + nx * ny * z,
{
    assert(nx * (y + ny * z) == nx * y + nx * ny * z) by (nonlinear_arith);
}

/// The surface has no face outside the grid, and each face names its material by its place in the
/// legend: the value there is that of the face's own voxel.
pub proof fn faces_belong_to_voxels(grid: VtkGrid, r: Surface, k: int)
    requires
        is_complete(grid@),
        call_ensures(find_surface, (&grid,), r),
        0 <= k < r.faces@.len(),
    ensures
        r.faces@[k].x < grid.nx,
        r.faces@[k].y < grid.ny,
        r.faces@[k].z < grid.nz,
        ({
            let (x, y, z) = (r.faces@[k].x as int, r.faces@[k].y as int, r.faces@[k].z as int);
            let v = grid.data@[x + grid.nx * y + grid.nx * grid.ny * z];
            !v.is_nan() ==> r.faces@[k].ordinal < r.legend@.len() && is_equal(
                r.legend@[r.faces@[k].ordinal as int],
                v,
            )
        }),
{
    let g = grid@;
    let ids = r.legend@;
    let f = r.faces@[k];
    assert(r.faces@.contains(f));
    surface_has_the_visible_faces(g, ids, f);
    let (x, y, z) = (f.x as int, f.y as int, f.z as int);
    let v = voxel(g, x, y, z);
    lemma_index(g.nx as int, g.ny as int, x, y, z);
    lemma_place(g.nx as int, g.ny as int, g.nz as int, x, y, z);
    assert(g.data[x + g.nx * (y + g.ny * z)] == v);
    assert(g.data.contains(v));
    let len = grid.data.len();
    assert(g.data.len() <= usize::MAX);
    if !v.is_nan() {
        legend_holds_the_value(g.data, v);
        distinct_keeps_values(g.data);
        ranking_is_an_order(order_keys(distinct(g.data)));
    }
}

/// Where a side stands among those of its voxel.
pub open spec fn rank(s: Side) -> int {
    match s {
        Side::East => 0,
        Side::West => 1,
        Side::North => 2,
        Side::South => 3,
        Side::Top => 4,
        Side::Bottom => 5,
    }
}

/// Whether a face comes before another: layer by layer, row by row, voxel by voxel, side by side.
pub open spec fn comes_before(a: Face, b: Face) -> bool {
    a.z < b.z || a.z == b.z && (a.y < b.y || a.y == b.y && (a.x < b.x || a.x == b.x && rank(a.side)
        < rank(b.side)))
}

/// Whether faces stand in order.
pub open spec fn in_order(faces: Seq<Face>) -> bool {
    forall|i: int, j: int|
        0 <= i < j < faces.len() ==> comes_before(#[trigger] faces[i], #[trigger] faces[j])
}

proof fn lemma_order_add(a: Seq<Face>, b: Seq<Face>)
    requires
        in_order(a),
        in_order(b),
        forall|i: int, j: int|
            0 <= i < a.len() && 0 <= j < b.len() ==> comes_before(#[trigger] a[i], #[trigger] b[j]),
    ensures
        in_order(a + b),
{
    let all = a + b;
    assert forall|i: int, j: int| 0 <= i < j < all.len() implies comes_before(
        #[trigger] all[i],
        #[trigger] all[j],
    ) by {
        if j < a.len() {
            assert(all[i] == a[i] && all[j] == a[j]);
        } else if i < a.len() {
            assert(all[i] == a[i] && all[j] == b[j - a.len()]);
        } else {
            assert(all[i] == b[i - a.len()] && all[j] == b[j - a.len()]);
        }
    }
}

proof fn lemma_voxel_order(g: Grid, ids: Seq<Double>, x: int, y: int, z: int, k: nat)
    requires
        0 <= x < g.nx,
        0 <= y < g.ny,
        0 <= z < g.nz,
        k <= 6,
    ensures
        in_order(voxel_faces(g, ids, x, y, z, k)),
        forall|i: int|
            0 <= i < voxel_faces(g, ids, x, y, z, k).len() ==> {
                let f = #[trigger] voxel_faces(g, ids, x, y, z, k)[i];
                f.x == x && f.y == y && f.z == z && rank(f.side) < k
            },
    decreases k,
{
    if k > 0 {
        lemma_voxel_order(g, ids, x, y, z, (k - 1) as nat);
        let before = voxel_faces(g, ids, x, y, z, (k - 1) as nat);
        let all = voxel_faces(g, ids, x, y, z, k);
        let f = face_of(g, ids, x, y, z, side(k - 1));
        assert(rank(f.side) == k - 1);
        if is_drawn(g, x, y, z, side(k - 1)) {
            lemma_order_add(before, seq![f]);
            assert(all =~= before + seq![f]);
        }
        assert forall|i: int| 0 <= i < all.len() implies {
            let f = #[trigger] all[i];
            f.x == x && f.y == y && f.z == z && rank(f.side) < k
        } by {
            if i < before.len() {
                assert(all[i] == before[i]);
            }
        }
    }
}

proof fn lemma_row_order(g: Grid, ids: Seq<Double>, y: int, z: int, k: nat)
    requires
        k <= g.nx,
        0 <= y < g.ny,
        0 <= z < g.nz,
    ensures
        in_order(row_faces(g, ids, y, z, k)),
        forall|i: int|
            0 <= i < row_faces(g, ids, y, z, k).len() ==> {
                let f = #[trigger] row_faces(g, ids, y, z, k)[i];
                f.x < k && f.y == y && f.z == z
            },
    decreases k,
{
    if k > 0 {
        lemma_row_order(g, ids, y, z, (k - 1) as nat);
        lemma_voxel_order(g, ids, k - 1, y, z, 6);
        let before = row_faces(g, ids, y, z, (k - 1) as nat);
        let last = voxel_faces(g, ids, k - 1, y, z, 6);
        lemma_order_add(before, last);
        let all = row_faces(g, ids, y, z, k);
        assert(all == before + last);
        assert forall|i: int| 0 <= i < all.len() implies {
            let f = #[trigger] all[i];
            f.x < k && f.y == y && f.z == z
        } by {
            if i < before.len() {
                assert(all[i] == before[i]);
            } else {
                assert(all[i] == last[i - before.len()]);
            }
        }
    }
}

proof fn lemma_layer_order(g: Grid, ids: Seq<Double>, z: int, k: nat)
    requires
        k <= g.ny,
        0 <= z < g.nz,
    ensures
        in_order(layer_faces(g, ids, z, k)),
        forall|i: int|
            0 <= i < layer_faces(g, ids, z, k).len() ==> {
                let f = #[trigger] layer_faces(g, ids, z, k)[i];
                f.y < k && f.z == z
            },
    decreases k,
{
    if k > 0 {
        lemma_layer_order(g, ids, z, (k - 1) as nat);
        lemma_row_order(g, ids, k - 1, z, g.nx as nat);
        let before = layer_faces(g, ids, z, (k - 1) as nat);
        let last = row_faces(g, ids, k - 1, z, g.nx as nat);
        lemma_order_add(before, last);
        let all = layer_faces(g, ids, z, k);
        assert(all == before + last);
        assert forall|i: int| 0 <= i < all.len() implies {
            let f = #[trigger] all[i];
            f.y < k && f.z == z
        } by {
            if i < before.len() {
                assert(all[i] == before[i]);
            } else {
                assert(all[i] == last[i - before.len()]);
            }
        }
    }
}

proof fn lemma_faces_order(g: Grid, ids: Seq<Double>, k: nat)
    requires
        k <= g.nz,
    ensures
        in_order(faces_of(g, ids, k)),
        forall|i: int|
            0 <= i < faces_of(g, ids, k).len() ==> (#[trigger] faces_of(g, ids, k)[i]).z < k,
    decreases k,
{
    if k > 0 {
        lemma_faces_order(g, ids, (k - 1) as nat);
        lemma_layer_order(g, ids, k - 1, g.ny as nat);
        let before = faces_of(g, ids, (k - 1) as nat);
        let last = layer_faces(g, ids, k - 1, g.ny as nat);
        lemma_order_add(before, last);
        let all = faces_of(g, ids, k);
        assert(all == before + last);
        assert forall|i: int| 0 <= i < all.len() implies (#[trigger] all[i]).z < k by {
            if i < before.len() {
                assert(all[i] == before[i]);
            } else {
                assert(all[i] == last[i - before.len()]);
            }
        }
    }
}

/// The faces come in the order of their voxels in the file, and those of a voxel in a fixed order,
/// so that none is in the surface twice.
pub proof fn faces_come_in_order(grid: VtkGrid, r: Surface, i: int, j: int)
    requires
        is_complete(grid@),
        call_ensures(find_surface, (&grid,), r),
        0 <= i < j < r.faces@.len(),
    ensures
        comes_before(r.faces@[i], r.faces@[j]),
{
    lemma_faces_order(grid@, r.legend@, grid.nz as nat);
}

} // verus!
