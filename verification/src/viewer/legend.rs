//! The legend of a mesh: its materials, and the colours of the faces.
use crate::double::Double;
use crate::postproc::distinct::{
    ascending, distinct, distinct_keeps_values, distinct_values_ascend, lemma_order_key, order_key,
    order_keys,
};
use crate::postproc::vtkio::Grid;
use crate::single::narrowed;
use crate::sorting::{in_order, ranking, ranking_is_an_order};
use crate::viewer::colors::{color_of, Color};
use crate::viewer::mesh::{
    all_vertices, coordinate, face_vertices, is_legend, unit, vertex, vertices_are_counted,
};
use crate::viewer::surface::{
    faces_of, is_complete, lemma_place, ordinal_of, surface_has_the_visible_faces, voxel, Face,
};
use vstd::prelude::*;

verus! {

/// What lies before the place of a value is below it, and what stands there is not.
proof fn lemma_ordinal_parts(ids: Seq<Double>, v: Double)
    ensures
        ordinal_of(ids, v) <= ids.len(),
        forall|i: int| 0 <= i < ordinal_of(ids, v) ==> (#[trigger] ids[i]).is_below(v),
        ordinal_of(ids, v) < ids.len() ==> !ids[ordinal_of(ids, v) as int].is_below(v),
    decreases ids.len(),
{
    if ids.len() > 0 && ids[0].is_below(v) {
        let rest = ids.skip(1);
        lemma_ordinal_parts(rest, v);
        let n = ordinal_of(rest, v);
        assert forall|i: int| 0 <= i < n + 1 implies (#[trigger] ids[i]).is_below(v) by {
            if i > 0 {
                assert(rest[i - 1] == ids[i]);
            }
        }
        if n < rest.len() {
            assert(rest[n as int] == ids[n as int + 1]);
        }
    }
}

/// The keys of the legend never fall.
proof fn lemma_keys_ascend(data: Seq<Double>, i: int, j: int)
    requires
        data.len() <= usize::MAX,
        0 <= i < j < ascending(distinct(data)).len(),
    ensures
        order_key(ascending(distinct(data))[i]) <= order_key(ascending(distinct(data))[j]),
{
    distinct_keeps_values(data);
    let values = distinct(data);
    let keys = order_keys(values);
    let order = ranking(keys);
    let r = ascending(values);
    ranking_is_an_order(keys);
    assert(in_order()(order[i], order[j]));
    assert(order_key(r[i]) == order[i].key);
    assert(order_key(r[j]) == order[j].key);
}

/// The place of a value in the legend holds that value; of two zeros it may hold the other.
pub proof fn legend_holds_the_value(data: Seq<Double>, v: Double)
    requires
        data.len() <= usize::MAX,
        data.contains(v),
        !v.is_nan(),
    ensures
        ({
            let ids = ascending(distinct(data));
            let n = ordinal_of(ids, v);
            &&& n < ids.len()
            &&& ids[n as int].is_same(v)
            &&& !data.contains(Double { bits: 0x8000_0000_0000_0000 }) ==> ids[n as int] == v
        }),
{
    let ids = ascending(distinct(data));
    let n = ordinal_of(ids, v);
    distinct_values_ascend(data);
    lemma_ordinal_parts(ids, v);
    assert(ids.contains(v));
    let p = choose|p: int| 0 <= p < ids.len() && ids[p] == v;
    lemma_order_key(v, v);
    assert(!ids[p].is_below(v));
    assert(n <= p);
    let w = ids[n as int];
    if n < p {
        lemma_keys_ascend(data, n as int, p);
    }
    assert(order_key(w) <= order_key(v));
    assert(!w.is_nan());
    lemma_order_key(w, v);
    assert(order_key(w) == order_key(v));
    assert(ids.contains(w));
    assert(data.contains(w));
}

/// Two rising sequences of the same values are the same.
proof fn lemma_rising_agree(a: Seq<Double>, b: Seq<Double>)
    requires
        forall|v: Double| #[trigger] a.contains(v) <==> b.contains(v),
        forall|i: int, j: int|
            0 <= i < j < a.len() ==> order_key(#[trigger] a[i]) < order_key(#[trigger] a[j]),
        forall|i: int, j: int|
            0 <= i < j < b.len() ==> order_key(#[trigger] b[i]) < order_key(#[trigger] b[j]),
    ensures
        a == b,
    decreases a.len(),
{
    if a.len() == 0 {
        if b.len() > 0 {
            assert(b.contains(b[0]));
            assert(a.contains(b[0]));
        }
        assert(a =~= b);
    } else {
        let (x, y) = (a.last(), b.last());
        assert(a.contains(x));
        assert(b.contains(x));
        let j = choose|j: int| 0 <= j < b.len() && b[j] == x;
        assert(b.contains(b[b.len() - 1]));
        assert(a.contains(y));
        let i = choose|i: int| 0 <= i < a.len() && a[i] == y;
        assert(x == y) by {
            if i < a.len() - 1 && j < b.len() - 1 {
                assert(order_key(a[i]) < order_key(a[a.len() - 1]));
                assert(order_key(b[j]) < order_key(b[b.len() - 1]));
            }
        }
        let (c, d) = (a.drop_last(), b.drop_last());
        assert forall|v: Double| #[trigger] c.contains(v) <==> d.contains(v) by {
            if c.contains(v) {
                let k = choose|k: int| 0 <= k < c.len() && c[k] == v;
                assert(a[k] == v);
                assert(order_key(a[k]) < order_key(a[a.len() - 1]));
                assert(a.contains(v));
                assert(b.contains(v));
                let m = choose|m: int| 0 <= m < b.len() && b[m] == v;
                assert(d[m] == v);
            }
            if d.contains(v) {
                let k = choose|k: int| 0 <= k < d.len() && d[k] == v;
                assert(b[k] == v);
                assert(order_key(b[k]) < order_key(b[b.len() - 1]));
                assert(b.contains(v));
                assert(a.contains(v));
                let m = choose|m: int| 0 <= m < a.len() && a[m] == v;
                assert(c[m] == v);
            }
        }
        lemma_rising_agree(c, d);
        assert(a =~= c.push(x));
        assert(b =~= d.push(y));
    }
}

/// Whether a field holds numbers only, and no minus zero.
pub open spec fn is_plain(data: Seq<Double>) -> bool {
    forall|i: int|
        0 <= i < data.len() ==> !(#[trigger] data[i]).is_nan() && data[i] != (Double {
            bits: 0x8000_0000_0000_0000,
        })
}

/// The keys of the legend of a plain field rise.
proof fn lemma_keys_rise(data: Seq<Double>, i: int, j: int)
    requires
        data.len() <= usize::MAX,
        is_plain(data),
        0 <= i < j < ascending(distinct(data)).len(),
    ensures
        order_key(ascending(distinct(data))[i]) < order_key(ascending(distinct(data))[j]),
{
    let ids = ascending(distinct(data));
    lemma_keys_ascend(data, i, j);
    distinct_values_ascend(data);
    assert(ids.contains(ids[i]) && ids.contains(ids[j]));
    assert(data.contains(ids[i]) && data.contains(ids[j]));
    lemma_order_key(ids[i], ids[j]);
    assert(ids[i] != ids[j]);
}

/// The legend does not depend on where the materials lie: fields of the same values, in whatever
/// order, have the same legend.
pub proof fn legend_ignores_order(a: Seq<Double>, b: Seq<Double>)
    requires
        a.len() <= usize::MAX,
        b.len() <= usize::MAX,
        is_plain(a),
        forall|v: Double| #[trigger] a.contains(v) <==> b.contains(v),
    ensures
        ascending(distinct(a)) == ascending(distinct(b)),
{
    let (x, y) = (ascending(distinct(a)), ascending(distinct(b)));
    distinct_values_ascend(a);
    distinct_values_ascend(b);
    assert forall|i: int| 0 <= i < b.len() implies !(#[trigger] b[i]).is_nan() && b[i] != (Double {
        bits: 0x8000_0000_0000_0000,
    }) by {
        assert(b.contains(b[i]));
        assert(a.contains(b[i]));
    }
    assert forall|i: int, j: int| 0 <= i < j < x.len() implies order_key(#[trigger] x[i])
        < order_key(#[trigger] x[j]) by {
        lemma_keys_rise(a, i, j);
    }
    assert forall|i: int, j: int| 0 <= i < j < y.len() implies order_key(#[trigger] y[i])
        < order_key(#[trigger] y[j]) by {
        lemma_keys_rise(b, i, j);
    }
    assert forall|v: Double| #[trigger] x.contains(v) <==> y.contains(v) by {
        assert(a.contains(v) <==> b.contains(v));
    }
    lemma_rising_agree(x, y);
}

/// Where the vertices of a face stand among all.
pub proof fn lemma_face_stands(g: Grid, faces: Seq<Face>, n: nat, k: int)
    requires
        0 <= k < n <= faces.len(),
    ensures
        all_vertices(g, faces, n).len() == 54 * n,
        all_vertices(g, faces, n).subrange(54 * k, 54 * k + 54) == face_vertices(
            g,
            faces[k],
        ),
    decreases n,
{
    let before = all_vertices(g, faces, (n - 1) as nat);
    let own = face_vertices(g, faces[n - 1]);
    let all = all_vertices(g, faces, n);
    vertices_are_counted(g, faces, n);
    vertices_are_counted(g, faces, (n - 1) as nat);
    assert(own.len() == 54);
    if k == n - 1 {
        assert(all.subrange(54 * k, 54 * k + 54) =~= own);
    } else {
        lemma_face_stands(g, faces, (n - 1) as nat, k);
        assert(all.subrange(54 * k, 54 * k + 54) =~= before.subrange(
            54 * k,
            54 * k + 54,
        ));
    }
}

/// The last three of nine.
pub proof fn lemma_nine<T>(a: T, b: T, c: T, d: T, e: T, f: T, g: T, h: T, i: T)
    ensures
        seq![a, b, c, d, e, f, g, h, i].len() == 9,
        seq![a, b, c, d, e, f, g, h, i][6] == g,
        seq![a, b, c, d, e, f, g, h, i][7] == h,
        seq![a, b, c, d, e, f, g, h, i][8] == i,
{
}

/// The colour of a vertex.
pub proof fn lemma_vertex_colour(g: Grid, f: Face, corner: Seq<u8>)
    ensures
        vertex(g, f, corner).len() == 9,
        vertex(g, f, corner)[6] == color_of(f.ordinal as nat)[0],
        vertex(g, f, corner)[7] == color_of(f.ordinal as nat)[1],
        vertex(g, f, corner)[8] == color_of(f.ordinal as nat)[2],
{
    reveal(vertex);
    let d = f.side.direction();
    let c = color_of(f.ordinal as nat);
    lemma_nine(
        coordinate(g.nx as nat, narrowed(g.dx), f.x as nat, corner[0] as nat),
        coordinate(g.ny as nat, narrowed(g.dy), f.y as nat, corner[1] as nat),
        coordinate(g.nz as nat, narrowed(g.dz), f.z as nat, corner[2] as nat),
        unit(d.0),
        unit(d.1),
        unit(d.2),
        c[0],
        c[1],
        c[2],
    );
}

/// Six parts of nine, one after another.
pub proof fn lemma_six_parts<T>(a: Seq<T>, b: Seq<T>, c: Seq<T>, d: Seq<T>, n: int, i: int)
    requires
        a.len() == 9,
        b.len() == 9,
        c.len() == 9,
        d.len() == 9,
        0 <= n < 6,
        0 <= i < 9,
    ensures
        (a + b + c + a + c + d).len() == 54,
        (a + b + c + a + c + d)[9 * n + i] == if n == 0 || n == 3 {
            a[i]
        } else if n == 1 {
            b[i]
        } else if n == 2 || n == 4 {
            c[i]
        } else {
            d[i]
        },
{
}

/// The colour of each vertex of a face.
proof fn lemma_face_colour(g: Grid, f: Face, c: int, d: int)
    requires
        0 <= c < 6,
        0 <= d < 3,
    ensures
        face_vertices(g, f).len() == 54,
        face_vertices(g, f)[9 * c + 6 + d] == color_of(f.ordinal as nat)[d],
{
    reveal(face_vertices);
    let a = f.side.around();
    lemma_vertex_colour(g, f, a[0]);
    lemma_vertex_colour(g, f, a[1]);
    lemma_vertex_colour(g, f, a[2]);
    lemma_vertex_colour(g, f, a[3]);
    lemma_six_parts(
        vertex(g, f, a[0]),
        vertex(g, f, a[1]),
        vertex(g, f, a[2]),
        vertex(g, f, a[3]),
        c,
        6 + d,
    );
    assert(d == 0 || d == 1 || d == 2);
}

/// Each vertex of a face has the colour that the legend gives for the value of the face's own
/// voxel.
pub proof fn faces_have_the_colour_of_their_voxel(
    g: Grid,
    legend: Seq<(Double, Color)>,
    k: int,
    c: int,
)
    requires
        is_complete(g),
        g.data.len() <= usize::MAX,
        is_plain(g.data),
        is_legend(legend, ascending(distinct(g.data))),
        0 <= k < faces_of(g, ascending(distinct(g.data)), g.nz as nat).len(),
        0 <= c < 6,
    ensures
        ({
            let faces = faces_of(g, ascending(distinct(g.data)), g.nz as nat);
            let f = faces[k];
            let n = f.ordinal as int;
            &&& 0 <= n < legend.len()
            &&& legend[n].0 == voxel(g, f.x as int, f.y as int, f.z as int)
            &&& all_vertices(g, faces, faces.len()).subrange(
                54 * k + 9 * c + 6,
                54 * k + 9 * c + 9,
            ) == legend[n].1@
        }),
{
    let ids = ascending(distinct(g.data));
    let faces = faces_of(g, ids, g.nz as nat);
    let f = faces[k];
    assert(faces.contains(f));
    surface_has_the_visible_faces(g, ids, f);
    let (x, y, z) = (f.x as int, f.y as int, f.z as int);
    let v = voxel(g, x, y, z);
    lemma_place(g.nx as int, g.ny as int, g.nz as int, x, y, z);
    let i = x + g.nx * (y + g.ny * z);
    assert(g.data[i] == v);
    assert(g.data.contains(v));
    if g.data.contains(Double { bits: 0x8000_0000_0000_0000 }) {
        let m = choose|m: int|
            0 <= m < g.data.len() && g.data[m] == (Double { bits: 0x8000_0000_0000_0000 });
        assert(g.data[m] != (Double { bits: 0x8000_0000_0000_0000 }));
    }
    legend_holds_the_value(g.data, v);
    distinct_keeps_values(g.data);
    ranking_is_an_order(order_keys(distinct(g.data)));
    assert(ids.len() <= usize::MAX);
    assert(f.ordinal == ordinal_of(ids, v));
    lemma_face_stands(g, faces, faces.len(), k);
    lemma_face_colour(g, f, c, 0);
    lemma_face_colour(g, f, c, 1);
    lemma_face_colour(g, f, c, 2);
    let all = all_vertices(g, faces, faces.len());
    let own = face_vertices(g, f);
    let entry = legend[f.ordinal as int];
    assert(entry.1@ == color_of(f.ordinal as nat));
    let part = all.subrange(54 * k + 9 * c + 6, 54 * k + 9 * c + 9);
    assert forall|d: int| 0 <= d < 3 implies #[trigger] part[d] == entry.1@[d] by {
        assert(own == all.subrange(54 * k, 54 * k + 54));
        assert(own[9 * c + 6 + d] == all[54 * k + 9 * c + 6 + d]);
        assert(d == 0 || d == 1 || d == 2);
    }
    assert(part =~= entry.1@);
}

} // verus!
