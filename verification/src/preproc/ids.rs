//! The numbers that the solver gives to materials and zones.
//!
//! In a file a material is known by the value of its voxels. The solver wants these values to be
//! integers that begin at 0 or 1 and leave none out, and numbers the materials from one. The zones
//! of a material are numbered in the same way, for each material on its own.
use crate::arithmetic::{
    difference, integer, lemma_exact_integer, lemma_nearest_at_least, nearest, opposite,
};
use crate::double::{lemma_grid_fields, lemma_grid_increases, lemma_order, Double, WIDE};
use crate::postproc::distinct::{
    ascending, distinct, distinct_keeps_values, distinct_sorted_values, distinct_values_ascend,
    order_keys,
};
use crate::sorting::ranking_is_an_order;
use crate::postproc::vtkio::VtkGrid;
use crate::text::decimal;
use crate::writing::{push_count, write_number, writer, writes};
use vstd::arithmetic::div_mod::*;
use vstd::arithmetic::mul::*;
use vstd::arithmetic::power2::*;
use vstd::prelude::*;

verus! {

/// What an identifier stands for.
#[derive(Clone, Copy, PartialEq, Eq, Structural, Debug)]
pub enum IdKind {
    Material,
    Zone,
}

impl IdKind {
    pub open spec fn text(self) -> Seq<char> {
        match self {
            IdKind::Material => "material ID"@,
            IdKind::Zone => "zone ID"@,
        }
    }

    pub fn name(&self) -> (r: &'static str)
        ensures
            r@ == self.text(),
    {
        match self {
            IdKind::Material => "material ID",
            IdKind::Zone => "zone ID",
        }
    }
}

/// Why identifiers cannot be numbered.
#[derive(Clone, Copy, PartialEq, Eq, Structural, Debug)]
pub enum IdError {
    NoVoxels { kind: IdKind },
    BadStart { kind: IdKind, min: Double },
    NotInteger { kind: IdKind, found: Double },
    Gaps { kind: IdKind, count: usize, min: Double, max: Double, expected: usize },
    /// The two files do not have the same number of voxels.
    VoxelCounts { materials: usize, zones: usize },
}

impl IdError {
    pub open spec fn text(self, show: spec_fn(Double) -> Seq<char>) -> Seq<char> {
        match self {
            IdError::NoVoxels { kind } => "no voxels found for this "@ + kind.text(),
            IdError::BadStart { kind, min } => kind.text()
                + "s must start at 0 or 1 (AMITEX requirement) — found minimum "@ + show(min),
            IdError::NotInteger { kind, found } => kind.text() + "s must be integers — found "@
                + show(found),
            IdError::Gaps { kind, count, min, max, expected } => kind.text()
                + "s must be contiguous with no gaps — found "@ + decimal(count as nat)
                + " distinct value(s) but the range "@ + show(min) + "..="@ + show(max)
                + " implies "@ + decimal(expected as nat),
            IdError::VoxelCounts { materials, zones } => "material ID VTK ("@ + decimal(
                materials as nat,
            ) + " voxels) and zone ID VTK ("@ + decimal(zones as nat)
                + " voxels) have different voxel counts"@,
        }
    }

    /// Says what is wrong.
    pub fn message<S: Fn(Double) -> String>(&self, show: &S) -> (r: String)
        requires
            writes(*show),
        ensures
            r@ == self.text(writer(*show)),
    {
        match self {
            IdError::NoVoxels { kind } => {
                let mut r: String = "no voxels found for this ".to_owned();
                r.append(kind.name());
                r
            },
            IdError::BadStart { kind, min } => {
                let mut r: String = kind.name().to_owned();
                r.append("s must start at 0 or 1 (AMITEX requirement) — found minimum ");
                r.append(write_number(show, *min).as_str());
                r
            },
            IdError::NotInteger { kind, found } => {
                let mut r: String = kind.name().to_owned();
                r.append("s must be integers — found ");
                r.append(write_number(show, *found).as_str());
                r
            },
            IdError::Gaps { kind, count, min, max, expected } => {
                let mut r: String = kind.name().to_owned();
                r.append("s must be contiguous with no gaps — found ");
                push_count(&mut r, *count);
                r.append(" distinct value(s) but the range ");
                r.append(write_number(show, *min).as_str());
                r.append("..=");
                r.append(write_number(show, *max).as_str());
                r.append(" implies ");
                push_count(&mut r, *expected);
                r
            },
            IdError::VoxelCounts { materials, zones } => {
                let mut r: String = "material ID VTK (".to_owned();
                push_count(&mut r, *materials);
                r.append(" voxels) and zone ID VTK (");
                push_count(&mut r, *zones);
                r.append(" voxels) have different voxel counts");
                r
            },
        }
    }
}

/// `n + k`, or the largest number that there is.
pub open spec fn saturating(n: int, k: int) -> usize {
    if n + k > usize::MAX {
        usize::MAX
    } else {
        (n + k) as usize
    }
}

/// The first of the first `k` values that is not an integer.
pub open spec fn first_fraction(ids: Seq<Double>, k: nat) -> Option<Double>
    decreases k,
{
    if k == 0 {
        None
    } else {
        match first_fraction(ids, (k - 1) as nat) {
            Some(v) => Some(v),
            None => if ids[k - 1].is_whole() {
                None
            } else {
                Some(ids[k - 1])
            },
        }
    }
}

proof fn lemma_first_fraction(ids: Seq<Double>, k: nat, n: nat)
    requires
        k <= n,
        first_fraction(ids, k) is Some,
    ensures
        first_fraction(ids, n) == first_fraction(ids, k),
    decreases n,
{
    if k < n {
        lemma_first_fraction(ids, k, (n - 1) as nat);
    }
}

/// How many integers lie between the first and the last of `ids`, these included.
pub open spec fn expected_count(ids: Seq<Double>) -> usize {
    saturating(difference(ids.last(), ids[0]).clamped(0, usize::MAX as int), 1)
}

/// The identifiers, in ascending order, with the numbers that the solver gives them.
pub open spec fn numbered(ids: Seq<Double>, kind: IdKind) -> Result<Seq<(Double, usize)>, IdError> {
    let zero = Double { bits: 0 };
    let one = Double { bits: 0x3ff0_0000_0000_0000 };
    if ids.len() == 0 {
        Err(IdError::NoVoxels { kind })
    } else if !ids[0].is_same(zero) && !ids[0].is_same(one) {
        Err(IdError::BadStart { kind, min: ids[0] })
    } else if first_fraction(ids, ids.len()) is Some {
        Err(IdError::NotInteger { kind, found: first_fraction(ids, ids.len())->0 })
    } else if ids.len() != expected_count(ids) {
        Err(
            IdError::Gaps {
                kind,
                count: ids.len() as usize,
                min: ids[0],
                max: ids.last(),
                expected: expected_count(ids),
            },
        )
    } else {
        let offset: int = if ids[0].is_same(zero) {
            1
        } else {
            0
        };
        Ok(
            ids.map_values(
                |id: Double| (id, saturating(id.clamped(0, usize::MAX as int), offset)),
            ),
        )
    }
}

/// Whether a computed result is the one that is meant.
pub open spec fn ids_agree(
    r: Result<Vec<(Double, usize)>, IdError>,
    meant: Result<Seq<(Double, usize)>, IdError>,
) -> bool {
    match (r, meant) {
        (Ok(v), Ok(s)) => v@ == s,
        (Err(e), Err(f)) => e == f,
        _ => false,
    }
}

fn saturating_sum(n: usize, k: usize) -> (r: usize)
    ensures
        r == saturating(n as int, k as int),
{
    if n > usize::MAX - k {
        usize::MAX
    } else {
        n + k
    }
}

fn to_count(v: Double) -> (r: usize)
    ensures
        r == v.clamped(0, usize::MAX as int),
{
    v.to_unsigned(usize::MAX as u64) as usize
}

/// Numbers the identifiers `ids`, which are in ascending order.
pub fn validate_contiguous_ids(ids: &Vec<Double>, kind: IdKind) -> (r: Result<
    Vec<(Double, usize)>,
    IdError,
>)
    ensures
        ids_agree(r, numbered(ids@, kind)),
{
    let zero: Double = Double { bits: 0 };
    let one: Double = Double { bits: 0x3ff0_0000_0000_0000 };
    if ids.len() == 0 {
        return Err(IdError::NoVoxels { kind });
    }
    let min: Double = ids[0];
    if !min.same(zero) && !min.same(one) {
        return Err(IdError::BadStart { kind, min });
    }
    let mut i: usize = 0;
    while i < ids.len()
        invariant
            i <= ids@.len(),
            ids@.len() > 0,
            ids@[0].is_same(Double { bits: 0 }) || ids@[0].is_same(
                Double { bits: 0x3ff0_0000_0000_0000 },
            ),
            first_fraction(ids@, i as nat) is None,
        decreases ids@.len() - i,
    {
        if !ids[i].is_integer() {
            proof {
                lemma_first_fraction(ids@, (i + 1) as nat, ids@.len());
            }
            return Err(IdError::NotInteger { kind, found: ids[i] });
        }
        i += 1;
    }
    let max: Double = ids[ids.len() - 1];
    let expected: usize = saturating_sum(to_count(max.minus(min)), 1);
    if ids.len() != expected {
        return Err(IdError::Gaps { kind, count: ids.len(), min, max, expected });
    }
    let offset: usize = if min.same(zero) {
        1
    } else {
        0
    };
    let mut r: Vec<(Double, usize)> = Vec::new();
    i = 0;
    while i < ids.len()
        invariant
            i <= ids@.len(),
            r@ == ids@.take(i as int).map_values(
                |id: Double| (id, saturating(id.clamped(0, usize::MAX as int), offset as int)),
            ),
        decreases ids@.len() - i,
    {
        let id: Double = ids[i];
        r.push((id, saturating_sum(to_count(id), offset)));
        i += 1;
        assert(r@ =~= ids@.take(i as int).map_values(
            |id: Double| (id, saturating(id.clamped(0, usize::MAX as int), offset as int)),
        ));
    }
    assert(ids@.take(i as int) =~= ids@);
    Ok(r)
}

/// The materials of a file: the value of each one's voxels, and the solver's number for it.
pub open spec fn material_ids(data: Seq<Double>) -> Result<Seq<(Double, usize)>, IdError> {
    numbered(ascending(distinct(data)), IdKind::Material)
}

/// Finds the materials of a file.
pub fn detect_material_ids(grid: &VtkGrid) -> (r: Result<Vec<(Double, usize)>, IdError>)
    ensures
        ids_agree(r, material_ids(grid@.data)),
{
    validate_contiguous_ids(&distinct_sorted_values(&grid.data), IdKind::Material)
}

/// The zone values of the first `k` voxels, of those that belong to the material.
pub open spec fn zones_of(
    materials: Seq<Double>,
    zones: Seq<Double>,
    material: Double,
    k: nat,
) -> Seq<Double>
    decreases k,
{
    if k == 0 {
        Seq::empty()
    } else {
        let before = zones_of(materials, zones, material, (k - 1) as nat);
        if materials[k - 1].is_same(material) {
            before.push(zones[k - 1])
        } else {
            before
        }
    }
}

/// The zones of a material: the value of each one's voxels, and the solver's number for it.
pub open spec fn zone_ids(
    materials: Seq<Double>,
    zones: Seq<Double>,
    material: Double,
) -> Result<Seq<(Double, usize)>, IdError> {
    if materials.len() != zones.len() {
        Err(
            IdError::VoxelCounts {
                materials: materials.len() as usize,
                zones: zones.len() as usize,
            },
        )
    } else {
        numbered(
            ascending(distinct(zones_of(materials, zones, material, materials.len()))),
            IdKind::Zone,
        )
    }
}

/// Finds the zones of the material whose voxels have the value `material_vtk_id`.
pub fn detect_zone_ids(
    material_grid: &VtkGrid,
    zone_grid: &VtkGrid,
    material_vtk_id: Double,
) -> (r: Result<Vec<(Double, usize)>, IdError>)
    ensures
        ids_agree(r, zone_ids(material_grid@.data, zone_grid@.data, material_vtk_id)),
{
    let materials: &Vec<Double> = &material_grid.data;
    let zones: &Vec<Double> = &zone_grid.data;
    if materials.len() != zones.len() {
        return Err(IdError::VoxelCounts { materials: materials.len(), zones: zones.len() });
    }
    let mut found: Vec<Double> = Vec::new();
    let mut i: usize = 0;
    assert(found@ =~= Seq::empty());
    while i < materials.len()
        invariant
            i <= materials@.len(),
            materials@.len() == zones@.len(),
            found@ == zones_of(materials@, zones@, material_vtk_id, i as nat),
        decreases materials@.len() - i,
    {
        if materials[i].same(material_vtk_id) {
            found.push(zones[i]);
        }
        i += 1;
    }
    validate_contiguous_ids(&distinct_sorted_values(&found), IdKind::Zone)
}

/// Below this many identifiers differences between them are exact.
pub const MANY: u64 = 0x20_0000_0000_0000;

/// Whether `v` is the integer `n`.
pub open spec fn is_integer_value(v: Double, n: int) -> bool {
    v.is_finite() && v.scaled() == n * pow2(1074)
}

proof fn lemma_clamped(v: Double, n: int)
    requires
        is_integer_value(v, n),
        n >= 0,
    ensures
        v.clamped(0, usize::MAX as int) == if n > usize::MAX {
            usize::MAX as int
        } else {
            n
        },
        v.is_whole(),
{
    let unit = pow2(1074) as int;
    lemma_pow2_pos(1074);
    assert(n * unit >= 0) by (nonlinear_arith)
        requires
            n >= 0,
            unit > 0,
    ;
    assert(v.units() == n * unit);
    lemma_div_multiples_vanish(n, unit);
    lemma_mul_is_commutative(n, unit);
    lemma_mod_multiples_basic(n, unit);
    if v.negative() {
        assert(v.whole() == 0 || n * unit == 0);
        assert(n == 0) by (nonlinear_arith)
            requires
                n * unit == 0,
                unit > 0,
        ;
    }
}

proof fn lemma_whole_value(v: Double)
    requires
        v.is_whole(),
        v.scaled() >= 0,
    ensures
        is_integer_value(v, v.whole() as int),
{
    let unit = pow2(1074) as int;
    lemma_pow2_pos(1074);
    lemma_fundamental_div_mod(v.units() as int, unit);
    lemma_mul_is_commutative(unit, v.whole() as int);
}

/// How many identifiers are expected from the first to the last.
pub proof fn lemma_expected(ids: Seq<Double>, first: int, span: int)
    requires
        ids.len() > 0,
        is_integer_value(ids[0], first),
        is_integer_value(ids.last(), first + span),
        first >= 0,
        span >= 0,
    ensures
        span < MANY - 1 ==> expected_count(ids) == saturating(span, 1),
        span >= MANY - 1 ==> expected_count(ids) >= saturating(MANY - 1, 1),
{
    let unit = pow2(1074) as int;
    lemma_pow2_pos(1074);
    let a = ids.last();
    let b = opposite(ids[0]);
    assert(b.scaled() == -ids[0].scaled());
    assert((first + span) * unit - first * unit == span * unit) by (nonlinear_arith);
    let s = a.scaled() + b.scaled();
    assert(s == span * unit);
    assert(s >= 0) by (nonlinear_arith)
        requires
            s == span * unit,
            span >= 0,
            unit > 0,
    ;
    let d = difference(a, ids[0]);
    if s == 0 {
        assert(span == 0) by (nonlinear_arith)
            requires
                span * unit == 0,
                unit > 0,
        ;
        lemma_order(d, Double { bits: 0 });
        lemma_grid_fields(WIDE as nat, 0, 0);
        assert(d.units() == 0);
        assert(0 * unit == 0);
        lemma_clamped(d, 0);
    } else if span < MANY - 1 {
        lemma_exact_integer(span);
        assert(d == integer(span));
        lemma_clamped(d, span);
    } else {
        let big = MANY - 1;
        lemma_exact_integer(big);
        let g = integer(big);
        assert(big * unit <= s) by (nonlinear_arith)
            requires
                s == span * unit,
                big <= span,
                unit > 0,
        ;
        lemma_nearest_at_least(s as nat, g.magnitude());
        assert(d.magnitude() == nearest(1, s as nat));
        lemma_order(g, d);
        if g.magnitude() < d.magnitude() {
            lemma_grid_increases(WIDE as nat, g.magnitude(), d.magnitude());
        }
        assert(d.units() >= big * unit);
        lemma_div_is_ordered(big * unit, d.units() as int, unit);
        lemma_div_multiples_vanish(big, unit);
        lemma_mul_is_commutative(big, unit);
        assert(d.whole() >= big);
    }
}

/// Whether `ids` ascend, without two that are equal as numbers.
pub open spec fn strictly_ascend(ids: Seq<Double>) -> bool {
    forall|i: int, j: int|
        0 <= i < j < ids.len() ==> (#[trigger] ids[i]).is_below(#[trigger] ids[j])
}

proof fn lemma_one()
    ensures
        is_integer_value(Double { bits: 0x3ff0_0000_0000_0000 }, 1),
        is_integer_value(Double { bits: 0 }, 0),
{
    let one = Double { bits: 0x3ff0_0000_0000_0000 };
    lemma2_to64();
    lemma2_to64_rest();
    lemma_grid_fields(WIDE as nat, 1023, 0);
    lemma_grid_fields(WIDE as nat, 0, 0);
    lemma_pow2_adds(52, 1022);
    assert(1 * pow2(1074) == pow2(1074));
    assert(0 * pow2(1074) == 0);
}

proof fn lemma_scaled_order(a: int, b: int)
    ensures
        a * pow2(1074) < b * pow2(1074) <==> a < b,
        a * pow2(1074) == b * pow2(1074) <==> a == b,
{
    lemma_pow2_pos(1074);
    let unit = pow2(1074) as int;
    if a < b {
        lemma_mul_strict_inequality(a, b, unit);
    } else if b < a {
        lemma_mul_strict_inequality(b, a, unit);
    }
}

proof fn lemma_all_whole(ids: Seq<Double>, k: nat, i: int)
    requires
        first_fraction(ids, k) is None,
        0 <= i < k,
    ensures
        ids[i].is_whole(),
    decreases k,
{
    if i < k - 1 {
        lemma_all_whole(ids, (k - 1) as nat, i);
    }
}

proof fn lemma_no_fraction(ids: Seq<Double>, k: nat)
    requires
        forall|i: int| 0 <= i < k ==> (#[trigger] ids[i]).is_whole(),
    ensures
        first_fraction(ids, k) is None,
    decreases k,
{
    if k > 0 {
        lemma_no_fraction(ids, (k - 1) as nat);
    }
}

/// Distinct integers ascend by one at least.
proof fn lemma_steps(ids: Seq<Double>, i: int, j: int)
    requires
        strictly_ascend(ids),
        0 <= i <= j < ids.len(),
        ids[0].scaled() >= 0,
        forall|k: int| 0 <= k < ids.len() ==> (#[trigger] ids[k]).is_whole(),
    ensures
        ids[i].scaled() >= 0,
        ids[j].scaled() >= 0,
        ids[j].whole() >= ids[i].whole() + (j - i),
    decreases j - i,
{
    assert(i > 0 ==> ids[0].is_below(ids[i]));
    assert(j > 0 ==> ids[0].is_below(ids[j]));
    if i < j {
        lemma_steps(ids, i, j - 1);
        assert(ids[j - 1].is_below(ids[j]));
        lemma_whole_value(ids[j - 1]);
        lemma_whole_value(ids[j]);
        lemma_scaled_order(ids[j - 1].whole() as int, ids[j].whole() as int);
    }
}

/// Where distinct ascending identifiers can be numbered, they are consecutive integers, and their
/// numbers are one, two and so on.
pub proof fn numbers_count_from_one(ids: Seq<Double>, kind: IdKind, i: int)
    requires
        strictly_ascend(ids),
        ids.len() < MANY,
        ids.len() < usize::MAX,
        numbered(ids, kind) is Ok,
        0 <= i < ids.len(),
    ensures
        numbered(ids, kind)->Ok_0.len() == ids.len(),
        numbered(ids, kind)->Ok_0[i] == (ids[i], (i + 1) as usize),
        ids[i].whole() == ids[0].whole() + i,
{
    let n = ids.len();
    let zero = Double { bits: 0 };
    lemma_one();
    lemma_scaled_order(0, 1);
    assert forall|k: int| 0 <= k < n implies (#[trigger] ids[k]).is_whole() by {
        lemma_all_whole(ids, n, k);
    }
    lemma_steps(ids, 0, i);
    lemma_steps(ids, i, n - 1);
    lemma_steps(ids, 0, n - 1);
    let first = ids[0].whole() as int;
    let span = ids[n - 1].whole() - first;
    lemma_whole_value(ids[0]);
    lemma_whole_value(ids[n - 1]);
    lemma_whole_value(ids[i]);
    lemma_expected(ids, first, span);
    assert(span == n - 1);
    lemma_scaled_order(first, 0);
    lemma_scaled_order(first, 1);
    assert(first == 0 || first == 1);
    lemma_clamped(ids[i], ids[i].whole() as int);
}

/// Consecutive integers from 0 or 1 can be numbered.
pub proof fn consecutive_ids_are_numbered(ids: Seq<Double>, kind: IdKind, first: int)
    requires
        0 < ids.len() < MANY,
        ids.len() < usize::MAX,
        first == 0 || first == 1,
        forall|i: int| 0 <= i < ids.len() ==> is_integer_value(#[trigger] ids[i], first + i),
    ensures
        numbered(ids, kind) is Ok,
{
    let n = ids.len();
    lemma_one();
    assert(is_integer_value(ids[0], first + 0));
    assert(is_integer_value(ids[n - 1], first + (n - 1)));
    assert forall|k: int| 0 <= k < n implies (#[trigger] ids[k]).is_whole() by {
        lemma_clamped(ids[k], first + k);
    }
    lemma_no_fraction(ids, n);
    lemma_expected(ids, first, n - 1);
}

/// Where the values of some voxels can be numbered, the numbers are one, two and so on, and each
/// value has one. Zero and minus zero must not both occur: they are two values for one number.
pub proof fn values_are_numbered_from_one(data: Seq<Double>, kind: IdKind)
    requires
        data.len() < MANY,
        data.len() < usize::MAX,
        forall|i: int, j: int|
            0 <= i < data.len() && 0 <= j < data.len() && (#[trigger] data[i]).is_same(
                #[trigger] data[j],
            ) ==> data[i] == data[j],
        numbered(ascending(distinct(data)), kind) is Ok,
    ensures
        ({
            let pairs = numbered(ascending(distinct(data)), kind)->Ok_0;
            &&& forall|i: int| 0 <= i < pairs.len() ==> (#[trigger] pairs[i]).1 == i + 1
            &&& forall|i: int| 0 <= i < pairs.len() ==> data.contains((#[trigger] pairs[i]).0)
            &&& forall|k: int|
                0 <= k < data.len() ==> exists|i: int|
                    0 <= i < pairs.len() && (#[trigger] pairs[i]).0 == #[trigger] data[k]
        }),
{
    distinct_keeps_values(data);
    distinct_values_ascend(data);
    ranking_is_an_order(order_keys(distinct(data)));
    let r = ascending(distinct(data));
    let n = r.len();
    assert(n <= data.len());
    assert forall|i: int, j: int| 0 <= i < j < n implies (#[trigger] r[i]).is_below(
        #[trigger] r[j],
    ) by {
        lemma_all_whole(r, n, i);
        lemma_all_whole(r, n, j);
        assert(r.contains(r[i]) && r.contains(r[j]));
        assert(data.contains(r[i]) && data.contains(r[j]));
        let a = choose|a: int| 0 <= a < data.len() && data[a] == r[i];
        let b = choose|b: int| 0 <= b < data.len() && data[b] == r[j];
        if r[i].is_same(r[j]) {
            assert(data[a].is_same(data[b]));
        }
        assert(!r[j].is_below(r[i]));
    }
    let pairs = numbered(r, kind)->Ok_0;
    assert forall|i: int| 0 <= i < pairs.len() implies (#[trigger] pairs[i]).1 == i + 1 by {
        numbers_count_from_one(r, kind, i);
    }
    assert forall|i: int| 0 <= i < pairs.len() implies data.contains((#[trigger] pairs[i]).0) by {
        assert(r.contains(r[i]));
    }
    assert forall|k: int| 0 <= k < data.len() implies exists|i: int|
        0 <= i < pairs.len() && (#[trigger] pairs[i]).0 == #[trigger] data[k] by {
        assert(data.contains(data[k]));
        assert(r.contains(data[k]));
        let i = choose|i: int| 0 <= i < r.len() && r[i] == data[k];
        assert(pairs[i].0 == data[k]);
    }
}

/// The zones of a material depend on its own voxels alone.
pub proof fn zones_are_local(
    materials: Seq<Double>,
    zones: Seq<Double>,
    others: Seq<Double>,
    material: Double,
)
    requires
        zones.len() == materials.len(),
        others.len() == materials.len(),
        forall|k: int|
            0 <= k < materials.len() && (#[trigger] materials[k]).is_same(material) ==> zones[k]
                == others[k],
    ensures
        zone_ids(materials, zones, material) == zone_ids(materials, others, material),
{
    lemma_zones_are_local(materials, zones, others, material, materials.len());
}

proof fn lemma_zones_are_local(
    materials: Seq<Double>,
    zones: Seq<Double>,
    others: Seq<Double>,
    material: Double,
    n: nat,
)
    requires
        n <= materials.len(),
        forall|k: int|
            0 <= k < materials.len() && (#[trigger] materials[k]).is_same(material) ==> zones[k]
                == others[k],
    ensures
        zones_of(materials, zones, material, n) == zones_of(materials, others, material, n),
    decreases n,
{
    if n > 0 {
        lemma_zones_are_local(materials, zones, others, material, (n - 1) as nat);
        assert(materials[n - 1].is_same(material) ==> zones[n - 1] == others[n - 1]);
    }
}

} // verus!
