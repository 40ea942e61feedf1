//! Where the triangles of a mesh lie, and which way they look.
use crate::postproc::vtkio::{Grid, VtkGrid};
use crate::single::{
    narrowed, single_natural, single_opposite, single_product, single_quotient, single_root,
    single_sum, widened, Single,
};
use crate::viewer::colors::{color_of, material_color, Color};
use crate::viewer::legend::{lemma_face_stands, lemma_six_parts, lemma_vertex_colour};
use crate::viewer::mesh::{
    all_vertices, build_boundary_mesh, coordinate, face_vertices, unit, vertex, Mesh,
};
use crate::viewer::surface::{faces_of, find_surface, is_complete, Face, Side, Surface};
use vstd::prelude::*;

verus! {

/// Where the plane behind `i` voxels of an axis lies: the grid is centred, so that it begins half
/// its length before the origin.
pub open spec fn plane(n: usize, spacing: Single, i: Single) -> Single {
    single_sum(
        single_quotient(
            single_product(single_opposite(single_natural(n as nat)), spacing),
            Single { bits: 0x4000_0000 },
        ),
        single_product(i, spacing),
    )
}

/// The beginning of voxel `i`, or its end.
pub open spec fn border(i: usize, end: bool) -> Single {
    single_sum(
        single_natural(i as nat),
        if end {
            Single { bits: 0x3f80_0000 }
        } else {
            Single { bits: 0 }
        },
    )
}

/// The nine numbers of a vertex.
proof fn lemma_vertex(g: Grid, f: Face, corner: Seq<u8>)
    ensures
        vertex(g, f, corner).len() == 9,
        vertex(g, f, corner)[0] == coordinate(
            g.nx as nat,
            narrowed(g.dx),
            f.x as nat,
            corner[0] as nat,
        ),
        vertex(g, f, corner)[1] == coordinate(
            g.ny as nat,
            narrowed(g.dy),
            f.y as nat,
            corner[1] as nat,
        ),
        vertex(g, f, corner)[2] == coordinate(
            g.nz as nat,
            narrowed(g.dz),
            f.z as nat,
            corner[2] as nat,
        ),
        vertex(g, f, corner)[3] == unit(f.side.direction().0),
        vertex(g, f, corner)[4] == unit(f.side.direction().1),
        vertex(g, f, corner)[5] == unit(f.side.direction().2),
{
    reveal(vertex);
    let d = f.side.direction();
    let c = color_of(f.ordinal as nat);
    lemma_first_six(
        coordinate(g.nx as nat, narrowed(g.dx), f.x as nat, corner[0] as nat),
        coordinate(g.ny as nat, narrowed(g.dy), f.y as nat, corner[1] as nat),
        coordinate(g.nz as nat, narrowed(g.dz), f.z as nat, corner[2] as nat),
        unit(d.0),
        unit(d.1),
        unit(d.2),
        c[0],
        c[1],
        c[2],
    );
}

proof fn lemma_first_six<T>(a: T, b: T, c: T, d: T, e: T, f: T, g: T, h: T, i: T)
    ensures
        seq![a, b, c, d, e, f, g, h, i].len() == 9,
        seq![a, b, c, d, e, f, g, h, i][0] == a,
        seq![a, b, c, d, e, f, g, h, i][1] == b,
        seq![a, b, c, d, e, f, g, h, i][2] == c,
        seq![a, b, c, d, e, f, g, h, i][3] == d,
        seq![a, b, c, d, e, f, g, h, i][4] == e,
        seq![a, b, c, d, e, f, g, h, i][5] == f,
{
}

/// Which corner of the four comes at place `c` of the six.
spec fn corner_at(side: Side, c: int) -> Seq<u8> {
    let a = side.around();
    if c == 0 || c == 3 {
        a[0]
    } else if c == 1 {
        a[1]
    } else if c == 2 || c == 4 {
        a[2]
    } else {
        a[3]
    }
}

proof fn lemma_vertex_of_face(g: Grid, f: Face, c: int, i: int)
    requires
        0 <= c < 6,
        0 <= i < 9,
    ensures
        face_vertices(g, f).len() == 54,
        face_vertices(g, f)[9 * c + i] == vertex(g, f, corner_at(f.side, c))[i],
{
    reveal(face_vertices);
    let a = f.side.around();
    lemma_vertex(g, f, a[0]);
    lemma_vertex(g, f, a[1]);
    lemma_vertex(g, f, a[2]);
    lemma_vertex(g, f, a[3]);
    lemma_six_parts(
        vertex(g, f, a[0]),
        vertex(g, f, a[1]),
        vertex(g, f, a[2]),
        vertex(g, f, a[3]),
        c,
        i,
    );
}

/// Which ends of its voxel the vertex at place `c` of the six of a side lies at. The side's own
/// axis has the same end at all six; on the others they go round the side.
pub open spec fn ends_at(side: Side, c: int) -> (bool, bool, bool) {
    let second = c == 1 || c == 2 || c == 4;
    let third = c == 2 || c == 4 || c == 5;
    match side {
        Side::East => (true, second, third),
        Side::West => (false, third, second),
        Side::North => (third, true, second),
        Side::South => (second, false, third),
        Side::Top => (second, third, true),
        Side::Bottom => (third, second, false),
    }
}

proof fn lemma_corner(side: Side, c: int)
    requires
        0 <= c < 6,
    ensures
        corner_at(side, c)[0] == (if ends_at(side, c).0 {
            1u8
        } else {
            0u8
        }),
        corner_at(side, c)[1] == (if ends_at(side, c).1 {
            1u8
        } else {
            0u8
        }),
        corner_at(side, c)[2] == (if ends_at(side, c).2 {
            1u8
        } else {
            0u8
        }),
{
    assert(c == 0 || c == 1 || c == 2 || c == 3 || c == 4 || c == 5);
}

/// The mesh has six vertices for each face of the surface, in the order of the faces. Each lies at
/// a corner of the face's voxel on the face's side, looks in the direction of that side, and has
/// the colour of the face's material.
pub proof fn mesh_shows_the_surface(
    grid: VtkGrid,
    surface: Surface,
    mesh: Mesh,
    k: int,
    c: int,
    color: Color,
)
    requires
        is_complete(grid@),
        call_ensures(find_surface, (&grid,), surface),
        call_ensures(build_boundary_mesh, (&grid,), mesh),
        0 <= k < surface.faces@.len(),
        0 <= c < 6,
        call_ensures(material_color, (surface.faces@[k].ordinal,), color),
    ensures
        mesh.vertices@.len() == 54 * surface.faces@.len(),
        ({
            let f = surface.faces@[k];
            let v = mesh.vertices@;
            let at = 54 * k + 9 * c;
            let (ex, ey, ez) = ends_at(f.side, c);
            let zero = Single { bits: 0 };
            let one = Single { bits: 0x3f80_0000 };
            let minus_one = Single { bits: 0xbf80_0000 };
            &&& v[at] == plane(grid.nx, narrowed(grid.dx), border(f.x, ex))
            &&& v[at + 1] == plane(grid.ny, narrowed(grid.dy), border(f.y, ey))
            &&& v[at + 2] == plane(grid.nz, narrowed(grid.dz), border(f.z, ez))
            &&& v[at + 3] == if f.side == Side::East {
                one
            } else if f.side == Side::West {
                minus_one
            } else {
                zero
            }
            &&& v[at + 4] == if f.side == Side::North {
                one
            } else if f.side == Side::South {
                minus_one
            } else {
                zero
            }
            &&& v[at + 5] == if f.side == Side::Top {
                one
            } else if f.side == Side::Bottom {
                minus_one
            } else {
                zero
            }
            &&& v[at + 6] == color[0]
            &&& v[at + 7] == color[1]
            &&& v[at + 8] == color[2]
        }),
{
    let g = grid@;
    let faces = surface.faces@;
    let f = faces[k];
    assert(faces == faces_of(g, surface.legend@, g.nz as nat));
    let v = mesh.vertices@;
    assert(v == all_vertices(g, faces, faces.len()));
    lemma_face_stands(g, faces, faces.len(), k);
    let own = face_vertices(g, f);
    assert(own == v.subrange(54 * k, 54 * k + 54));
    lemma_corner(f.side, c);
    let corner = corner_at(f.side, c);
    lemma_vertex(g, f, corner);
    lemma_vertex_colour(g, f, corner);
    assert forall|i: int| 0 <= i < 9 implies #[trigger] v[54 * k + 9 * c + i] == vertex(
        g,
        f,
        corner,
    )[i] by {
        lemma_vertex_of_face(g, f, c, i);
        assert(own[9 * c + i] == v[54 * k + (9 * c + i)]);
    }
    assert(v[54 * k + 9 * c + 0] == vertex(g, f, corner)[0]);
    assert(v[54 * k + 9 * c + 1] == vertex(g, f, corner)[1]);
    assert(v[54 * k + 9 * c + 2] == vertex(g, f, corner)[2]);
    assert(v[54 * k + 9 * c + 3] == vertex(g, f, corner)[3]);
    assert(v[54 * k + 9 * c + 4] == vertex(g, f, corner)[4]);
    assert(v[54 * k + 9 * c + 5] == vertex(g, f, corner)[5]);
    assert(v[54 * k + 9 * c + 6] == vertex(g, f, corner)[6]);
    assert(v[54 * k + 9 * c + 7] == vertex(g, f, corner)[7]);
    assert(v[54 * k + 9 * c + 8] == vertex(g, f, corner)[8]);
}

/// The legend of a mesh lists the materials of the surface, each with its colour.
pub proof fn legend_lists_the_materials(
    grid: VtkGrid,
    surface: Surface,
    mesh: Mesh,
    i: usize,
    color: Color,
)
    requires
        is_complete(grid@),
        call_ensures(find_surface, (&grid,), surface),
        call_ensures(build_boundary_mesh, (&grid,), mesh),
        i < surface.legend@.len(),
        call_ensures(material_color, (i,), color),
    ensures
        mesh.legend@.len() == surface.legend@.len(),
        mesh.legend@[i as int].0 == surface.legend@[i as int],
        mesh.legend@[i as int].1@ == color@,
{
}

/// The radius of a mesh is half the diagonal of the grid, and a thousandth at least.
pub proof fn radius_is_half_the_diagonal(grid: VtkGrid, mesh: Mesh)
    requires
        is_complete(grid@),
        call_ensures(build_boundary_mesh, (&grid,), mesh),
    ensures
        ({
            let x = single_product(single_natural(grid.nx as nat), narrowed(grid.dx));
            let y = single_product(single_natural(grid.ny as nat), narrowed(grid.dy));
            let z = single_product(single_natural(grid.nz as nat), narrowed(grid.dz));
            let half = single_product(
                Single { bits: 0x3f00_0000 },
                single_root(
                    single_sum(
                        single_sum(single_product(x, x), single_product(y, y)),
                        single_product(z, z),
                    ),
                ),
            );
            let least = Single { bits: 0x3a83_126f };
            mesh.bounding_radius == if widened(least).is_below(widened(half)) {
                half
            } else {
                least
            }
        }),
{
}

} // verus!
