//! The triangles that show the surface of the materials.
use crate::double::Double;
use crate::postproc::distinct::{ascending, distinct};
use crate::postproc::vtkio::{Grid, VtkGrid};
use crate::single::{
    narrowed, single_natural, single_opposite, single_product, single_quotient, single_root,
    single_sum, widened, Single,
};
use crate::viewer::colors::{color_of, material_color, Color};
use crate::viewer::surface::{faces_of, find_surface, is_complete, Face, Surface};
use vstd::prelude::*;

verus! {

/// The triangles of a surface, and the colours of the materials.
pub struct Mesh {
    /// The position, the normal and the colour of each vertex, one after another.
    pub vertices: Vec<Single>,
    pub bounding_radius: Single,
    /// The materials by their values, with their colours.
    pub legend: Vec<(Double, Color)>,
}

pub open spec fn single_two() -> Single {
    Single { bits: 0x4000_0000 }
}

/// Where an axis with `n` voxels begins, so that the grid is centred.
pub open spec fn axis_origin(n: nat, spacing: Single) -> Single {
    single_quotient(
        single_product(single_opposite(single_natural(n)), spacing),
        single_two(),
    )
}

/// The number 0 or 1.
pub open spec fn bit_number(bit: nat) -> Single {
    if bit == 0 {
        Single { bits: 0 }
    } else {
        Single { bits: 0x3f80_0000 }
    }
}

/// Where voxel `i` of an axis begins, or ends where `bit` is one.
pub open spec fn coordinate(n: nat, spacing: Single, i: nat, bit: nat) -> Single {
    single_sum(
        axis_origin(n, spacing),
        single_product(single_sum(single_natural(i), bit_number(bit)), spacing),
    )
}

/// A component of a normal.
pub open spec fn unit(d: int) -> Single {
    if d == 0 {
        Single { bits: 0 }
    } else if d > 0 {
        Single { bits: 0x3f80_0000 }
    } else {
        Single { bits: 0xbf80_0000 }
    }
}

/// The position, normal and colour of the corner of a face.
#[verifier::opaque]
pub open spec fn vertex(g: Grid, f: Face, corner: Seq<u8>) -> Seq<Single> {
    let d = f.side.direction();
    let c = color_of(f.ordinal as nat);
    seq![
        coordinate(g.nx as nat, narrowed(g.dx), f.x as nat, corner[0] as nat),
        coordinate(g.ny as nat, narrowed(g.dy), f.y as nat, corner[1] as nat),
        coordinate(g.nz as nat, narrowed(g.dz), f.z as nat, corner[2] as nat),
        unit(d.0),
        unit(d.1),
        unit(d.2),
        c[0],
        c[1],
        c[2],
    ]
}

/// The six vertices of the two triangles of a face.
#[verifier::opaque]
pub open spec fn face_vertices(g: Grid, f: Face) -> Seq<Single> {
    let a = f.side.around();
    vertex(g, f, a[0]) + vertex(g, f, a[1]) + vertex(g, f, a[2]) + vertex(g, f, a[0]) + vertex(
        g,
        f,
        a[2],
    ) + vertex(g, f, a[3])
}

/// The vertices of the first `k` faces.
pub open spec fn all_vertices(g: Grid, faces: Seq<Face>, k: nat) -> Seq<Single>
    decreases k,
{
    if k == 0 {
        Seq::empty()
    } else {
        all_vertices(g, faces, (k - 1) as nat) + face_vertices(g, faces[k - 1])
    }
}

/// The square of the length of an axis.
pub open spec fn axis_square(n: nat, spacing: Single) -> Single {
    let length = single_product(single_natural(n), spacing);
    single_product(length, length)
}

/// The radius of the ball around the grid, or a thousandth where it is less or not a number.
pub open spec fn radius_of(g: Grid) -> Single {
    let least = Single { bits: 0x3a83_126f };
    let radius = single_product(
        Single { bits: 0x3f00_0000 },
        single_root(
            single_sum(
                single_sum(
                    axis_square(g.nx as nat, narrowed(g.dx)),
                    axis_square(g.ny as nat, narrowed(g.dy)),
                ),
                axis_square(g.nz as nat, narrowed(g.dz)),
            ),
        ),
    );
    if widened(least).is_below(widened(radius)) {
        radius
    } else {
        least
    }
}

/// The materials with their colours.
pub open spec fn is_legend(legend: Seq<(Double, Color)>, ids: Seq<Double>) -> bool {
    &&& legend.len() == ids.len()
    &&& forall|i: int|
        0 <= i < ids.len() ==> (#[trigger] legend[i]).0 == ids[i] && legend[i].1@ == color_of(
            i as nat,
        )
}

/// An axis of the grid: where it begins, and how far apart its voxels are.
struct Axis {
    origin: Single,
    spacing: Single,
}

impl Axis {
    spec fn holds(self, n: nat, spacing: Single) -> bool {
        self.origin == axis_origin(n, spacing) && self.spacing == spacing
    }

    fn new(n: usize, spacing: Single) -> (r: Axis)
        ensures
            r.holds(n as nat, spacing),
    {
        let origin: Single = Single::of_count(n).negate().times(spacing).divided_by(
            Single { bits: 0x4000_0000 },
        );
        Axis { origin, spacing }
    }

    fn at(&self, i: usize, bit: u8, Ghost(n): Ghost<nat>, Ghost(spacing): Ghost<Single>) -> (r:
        Single)
        requires
            self.holds(n, spacing),
        ensures
            r == coordinate(n, spacing, i as nat, bit as nat),
    {
        let local: Single = if bit == 0 {
            Single { bits: 0 }
        } else {
            Single { bits: 0x3f80_0000 }
        };
        self.origin.plus(Single::of_count(i).plus(local).times(self.spacing))
    }
}

fn unit_of(d: i8) -> (r: Single)
    ensures
        r == unit(d as int),
{
    if d == 0 {
        Single { bits: 0 }
    } else if d > 0 {
        Single { bits: 0x3f80_0000 }
    } else {
        Single { bits: 0xbf80_0000 }
    }
}

fn push_vertex(
    out: &mut Vec<Single>,
    grid: &VtkGrid,
    x: &Axis,
    y: &Axis,
    z: &Axis,
    f: Face,
    corner: [u8; 3],
    color: Color,
)
    requires
        x.holds(grid.nx as nat, narrowed(grid.dx)),
        y.holds(grid.ny as nat, narrowed(grid.dy)),
        z.holds(grid.nz as nat, narrowed(grid.dz)),
        color@ == color_of(f.ordinal as nat),
    ensures
        final(out)@ == old(out)@ + vertex(grid@, f, corner@),
{
    let normal: [i8; 3] = f.side.normal();
    out.push(x.at(f.x, corner[0], Ghost(grid.nx as nat), Ghost(narrowed(grid.dx))));
    out.push(y.at(f.y, corner[1], Ghost(grid.ny as nat), Ghost(narrowed(grid.dy))));
    out.push(z.at(f.z, corner[2], Ghost(grid.nz as nat), Ghost(narrowed(grid.dz))));
    out.push(unit_of(normal[0]));
    out.push(unit_of(normal[1]));
    out.push(unit_of(normal[2]));
    out.push(color[0]);
    out.push(color[1]);
    out.push(color[2]);
    reveal(vertex);
    assert(out@ =~= old(out)@ + vertex(grid@, f, corner@));
}

fn push_face(
    out: &mut Vec<Single>,
    grid: &VtkGrid,
    x: &Axis,
    y: &Axis,
    z: &Axis,
    f: Face,
    color: Color,
)
    requires
        x.holds(grid.nx as nat, narrowed(grid.dx)),
        y.holds(grid.ny as nat, narrowed(grid.dy)),
        z.holds(grid.nz as nat, narrowed(grid.dz)),
        color@ == color_of(f.ordinal as nat),
    ensures
        final(out)@ == old(out)@ + face_vertices(grid@, f),
{
    let t: [[u8; 3]; 6] = f.side.triangles();
    let ghost start = out@;
    let ghost a = f.side.around();
    push_vertex(out, grid, x, y, z, f, t[0], color);
    let ghost v0 = vertex(grid@, f, a[0]);
    push_vertex(out, grid, x, y, z, f, t[1], color);
    let ghost v1 = v0 + vertex(grid@, f, a[1]);
    assert(out@ =~= start + v1);
    push_vertex(out, grid, x, y, z, f, t[2], color);
    let ghost v2 = v1 + vertex(grid@, f, a[2]);
    assert(out@ =~= start + v2);
    push_vertex(out, grid, x, y, z, f, t[3], color);
    let ghost v3 = v2 + vertex(grid@, f, a[0]);
    assert(out@ =~= start + v3);
    push_vertex(out, grid, x, y, z, f, t[4], color);
    let ghost v4 = v3 + vertex(grid@, f, a[2]);
    assert(out@ =~= start + v4);
    push_vertex(out, grid, x, y, z, f, t[5], color);
    let ghost v5 = v4 + vertex(grid@, f, a[3]);
    assert(out@ =~= start + v5);
    reveal(face_vertices);
}

fn square_of_axis(n: usize, spacing: Single) -> (r: Single)
    ensures
        r == axis_square(n as nat, spacing),
{
    let length: Single = Single::of_count(n).times(spacing);
    length.times(length)
}

/// Builds the triangles that show the surface of the materials in a grid.
pub fn build_boundary_mesh(grid: &VtkGrid) -> (r: Mesh)
    requires
        is_complete(grid@),
    ensures
        is_legend(r.legend@, ascending(distinct(grid@.data))),
        r.bounding_radius == radius_of(grid@),
        ({
            let faces = faces_of(grid@, ascending(distinct(grid@.data)), grid.nz as nat);
            r.vertices@ == all_vertices(grid@, faces, faces.len())
        }),
{
    let surface: Surface = find_surface(grid);
    let mut legend: Vec<(Double, Color)> = Vec::new();
    let mut i: usize = 0;
    while i < surface.legend.len()
        invariant
            i <= surface.legend@.len(),
            legend@.len() == i,
            forall|j: int|
                0 <= j < i ==> (#[trigger] legend@[j]).0 == surface.legend@[j] && legend@[j].1@
                    == color_of(j as nat),
        decreases surface.legend@.len() - i,
    {
        legend.push((surface.legend[i], material_color(i)));
        i += 1;
    }
    let dx: Single = grid.dx.narrow();
    let dy: Single = grid.dy.narrow();
    let dz: Single = grid.dz.narrow();
    let x: Axis = Axis::new(grid.nx, dx);
    let y: Axis = Axis::new(grid.ny, dy);
    let z: Axis = Axis::new(grid.nz, dz);
    let mut vertices: Vec<Single> = Vec::new();
    let ghost faces = surface.faces@;
    i = 0;
    assert(vertices@ =~= all_vertices(grid@, faces, 0));
    while i < surface.faces.len()
        invariant
            i <= surface.faces@.len(),
            faces == surface.faces@,
            faces == faces_of(grid@, surface.legend@, grid.nz as nat),
            legend@.len() == surface.legend@.len(),
            forall|j: int|
                0 <= j < legend@.len() ==> (#[trigger] legend@[j]).1@ == color_of(j as nat),
            forall|j: int|
                0 <= j < faces.len() ==> (#[trigger] faces[j]).ordinal < legend@.len(),
            x.holds(grid.nx as nat, narrowed(grid.dx)),
            y.holds(grid.ny as nat, narrowed(grid.dy)),
            z.holds(grid.nz as nat, narrowed(grid.dz)),
            vertices@ == all_vertices(grid@, faces, i as nat),
        decreases surface.faces@.len() - i,
    {
        let f: Face = surface.faces[i];
        proof {
            assert(faces.contains(faces[i as int]));
            crate::viewer::surface::surface_has_the_visible_faces(grid@, surface.legend@, f);
        }
        push_face(&mut vertices, grid, &x, &y, &z, f, legend[f.ordinal].1);
        i += 1;
    }
    let least: Single = Single { bits: 0x3a83_126f };
    let squares: Single = square_of_axis(grid.nx, dx).plus(square_of_axis(grid.ny, dy)).plus(
        square_of_axis(grid.nz, dz),
    );
    let radius: Single = Single { bits: 0x3f00_0000 }.times(squares.square_root());
    let bounding_radius: Single = if least.widen().below(radius.widen()) {
        radius
    } else {
        least
    };
    Mesh { vertices, bounding_radius, legend }
}

/// The triangles have six vertices of nine numbers for each face.
pub proof fn vertices_are_counted(g: Grid, faces: Seq<Face>, k: nat)
    requires
        k <= faces.len(),
    ensures
        all_vertices(g, faces, k).len() == 54 * k,
    decreases k,
{
    if k > 0 {
        let f = faces[k - 1];
        vertices_are_counted(g, faces, (k - 1) as nat);
        lemma_vertex_len(g, f, f.side.around()[0]);
        lemma_vertex_len(g, f, f.side.around()[1]);
        lemma_vertex_len(g, f, f.side.around()[2]);
        lemma_vertex_len(g, f, f.side.around()[3]);
        reveal(face_vertices);
    }
}

proof fn lemma_vertex_len(g: Grid, f: Face, corner: Seq<u8>)
    ensures
        vertex(g, f, corner).len() == 9,
{
    reveal(vertex);
}

} // verus!
