//! How the materials and zones of a file are numbered.
use crate::double::Double;
use crate::postproc::vtkio::VtkGrid;
use crate::preproc::ids::{
    detect_material_ids, detect_zone_ids, first_fraction, numbered, validate_contiguous_ids,
    values_are_numbered_from_one, zones_of, IdError, IdKind, MANY,
};
use vstd::prelude::*;

verus! {

proof fn lemma_first_fraction_of(ids: Seq<Double>, k: nat)
    requires
        k <= ids.len(),
    ensures
        match first_fraction(ids, k) {
            Some(v) => exists|i: int|
                0 <= i < k && #[trigger] ids[i] == v && !v.is_whole() && forall|j: int|
                    0 <= j < i ==> (#[trigger] ids[j]).is_whole(),
            None => forall|j: int| 0 <= j < k ==> (#[trigger] ids[j]).is_whole(),
        },
    decreases k,
{
    if k > 0 {
        lemma_first_fraction_of(ids, (k - 1) as nat);
        if first_fraction(ids, (k - 1) as nat) is None && !ids[k - 1].is_whole() {
            assert(ids[k - 1] == first_fraction(ids, k)->0);
        }
    }
}

/// What is said of identifiers that cannot be numbered is true of them: there are none, the first
/// is neither zero nor one, the one that is named is no integer, or there are gaps.
pub proof fn complaints_are_true(
    ids: Vec<Double>,
    kind: IdKind,
    r: Result<Vec<(Double, usize)>, IdError>,
)
    requires
        call_ensures(validate_contiguous_ids, (&ids, kind), r),
    ensures
        (r matches Err(e) && e is NoVoxels) <==> ids@.len() == 0,
        r matches Err(IdError::BadStart { kind: told, min }) ==> told == kind && min == ids@[0]
            && !min.is_same(Double { bits: 0 }) && !min.is_same(
            Double { bits: 0x3ff0_0000_0000_0000 },
        ),
        r matches Err(IdError::NotInteger { kind: told, found }) ==> told == kind && exists|i: int|
            0 <= i < ids@.len() && #[trigger] ids@[i] == found && !found.is_whole(),
        r matches Err(IdError::Gaps { kind: told, count, min, max, expected }) ==> told == kind
            && count == ids@.len() && min == ids@[0] && max == ids@[ids@.len() - 1] && count
            != expected,
        r matches Ok(pairs) ==> pairs@.len() == ids@.len() && (ids@[0].is_same(Double { bits: 0 })
            || ids@[0].is_same(Double { bits: 0x3ff0_0000_0000_0000 })) && forall|i: int|
            0 <= i < ids@.len() ==> (#[trigger] ids@[i]).is_whole() && pairs@[i].0 == ids@[i],
{
    lemma_first_fraction_of(ids@, ids@.len());
    let n = ids.len();
}

/// Where the materials of a file can be numbered, the numbers are one, two and so on, in the order
/// of the values, and the values are exactly those of the voxels.
pub proof fn materials_are_the_values_of_voxels(
    grid: VtkGrid,
    r: Result<Vec<(Double, usize)>, IdError>,
)
    requires
        call_ensures(detect_material_ids, (&grid,), r),
        r is Ok,
        grid.data@.len() < MANY,
        grid.data@.len() < usize::MAX,
        forall|i: int, j: int|
            0 <= i < grid.data@.len() && 0 <= j < grid.data@.len() && (
            #[trigger] grid.data@[i]).is_same(#[trigger] grid.data@[j]) ==> grid.data@[i]
                == grid.data@[j],
    ensures
        ({
            let pairs = r->Ok_0@;
            &&& forall|i: int| 0 <= i < pairs.len() ==> (#[trigger] pairs[i]).1 == i + 1
            &&& forall|i: int| 0 <= i < pairs.len() ==> grid.data@.contains((#[trigger] pairs[i]).0)
            &&& forall|k: int|
                0 <= k < grid.data@.len() ==> exists|i: int|
                    0 <= i < pairs.len() && (#[trigger] pairs[i]).0 == #[trigger] grid.data@[k]
        }),
{
    values_are_numbered_from_one(grid.data@, IdKind::Material);
}

/// The zones of a material are the values that its own voxels have in the other file.
proof fn lemma_zones_hold(
    materials: Seq<Double>,
    zones: Seq<Double>,
    material: Double,
    n: nat,
    v: Double,
)
    requires
        n <= materials.len(),
        materials.len() == zones.len(),
    ensures
        zones_of(materials, zones, material, n).len() <= n,
        zones_of(materials, zones, material, n).contains(v) <==> exists|k: int|
            0 <= k < n && (#[trigger] materials[k]).is_same(material) && zones[k] == v,
    decreases n,
{
    if n > 0 {
        let before = zones_of(materials, zones, material, (n - 1) as nat);
        let all = zones_of(materials, zones, material, n);
        lemma_zones_hold(materials, zones, material, (n - 1) as nat, v);
        if before.contains(v) {
            let i = choose|i: int| 0 <= i < before.len() && before[i] == v;
            assert(all[i] == v);
        }
        if materials[n - 1].is_same(material) {
            assert(all[before.len() as int] == zones[n - 1]);
            if all.contains(v) {
                let i = choose|i: int| 0 <= i < all.len() && all[i] == v;
                if i < before.len() {
                    assert(before[i] == v);
                } else {
                    assert(materials[n - 1].is_same(material) && zones[n - 1] == v);
                }
            }
        }
    }
}

/// Where the zones of a material can be numbered, the numbers are one, two and so on, and the
/// values are exactly those that the voxels of the material have in the map of zones.
pub proof fn zones_are_the_values_of_the_materials_voxels(
    materials: VtkGrid,
    zones: VtkGrid,
    material: Double,
    r: Result<Vec<(Double, usize)>, IdError>,
    k: int,
)
    requires
        call_ensures(detect_zone_ids, (&materials, &zones, material), r),
        r is Ok,
        materials.data@.len() < MANY,
        materials.data@.len() < usize::MAX,
        forall|i: int, j: int|
            0 <= i < zones.data@.len() && 0 <= j < zones.data@.len() && (
            #[trigger] zones.data@[i]).is_same(#[trigger] zones.data@[j]) ==> zones.data@[i]
                == zones.data@[j],
    ensures
        materials.data@.len() == zones.data@.len(),
        forall|i: int| 0 <= i < r->Ok_0@.len() ==> (#[trigger] r->Ok_0@[i]).1 == i + 1,
        0 <= k < r->Ok_0@.len() ==> exists|p: int|
            0 <= p < materials.data@.len() && (#[trigger] materials.data@[p]).is_same(material)
                && zones.data@[p] == r->Ok_0@[k].0,
        0 <= k < materials.data@.len() && materials.data@[k].is_same(material) ==> exists|i: int|
            0 <= i < r->Ok_0@.len() && (#[trigger] r->Ok_0@[i]).0 == zones.data@[k],
{
    let (a, b) = (materials.data@, zones.data@);
    let n = a.len();
    assert(a.len() == b.len());
    let data = zones_of(a, b, material, n);
    let pairs = r->Ok_0@;
    lemma_zones_hold(a, b, material, n, material);
    assert forall|i: int, j: int|
        0 <= i < data.len() && 0 <= j < data.len() && (#[trigger] data[i]).is_same(
            #[trigger] data[j],
        ) implies data[i] == data[j] by {
        assert(data.contains(data[i]) && data.contains(data[j]));
        lemma_zones_hold(a, b, material, n, data[i]);
        lemma_zones_hold(a, b, material, n, data[j]);
        let p = choose|p: int| 0 <= p < n && (#[trigger] a[p]).is_same(material) && b[p] == data[i];
        let q = choose|q: int| 0 <= q < n && (#[trigger] a[q]).is_same(material) && b[q] == data[j];
        assert(b[p].is_same(b[q]));
    }
    values_are_numbered_from_one(data, IdKind::Zone);
    if 0 <= k < pairs.len() {
        assert(data.contains(pairs[k].0));
        lemma_zones_hold(a, b, material, n, pairs[k].0);
    }
    if 0 <= k < n && a[k].is_same(material) {
        lemma_zones_hold(a, b, material, n, b[k]);
        assert(data.contains(b[k]));
        let m = choose|m: int| 0 <= m < data.len() && data[m] == b[k];
        assert(data[m] == b[k]);
        let i = choose|i: int| 0 <= i < pairs.len() && (#[trigger] pairs[i]).0 == data[m];
        assert(pairs[i].0 == b[k]);
    }
}

} // verus!
