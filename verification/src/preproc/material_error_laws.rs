//! What materials are refused for.
use crate::double::Double;
use crate::preproc::ids::{
    is_integer_value, lemma_expected, validate_contiguous_ids, IdError, IdKind,
};
use crate::preproc::material_laws::value_in_zone;
use crate::preproc::material_xml::{
    first_gap, first_unimplemented, generate_mat_xml, mat_xml, material_blocks, material_numbers,
    material_text, stiffness_label, stiffness_text, MaterialError,
};
use crate::preproc::materials::{
    coefficient, contributions, first_unphysical, CoefficientError, Label, LawKind, MaterialEntry,
    Unphysical,
};
use crate::preproc::zones::Zoned;
use crate::sorting::{ranking, ranking_is_an_order, Ranked};
use crate::text::decimal;
use crate::writing::{shown, writer, writes};
use vstd::prelude::*;

verus! {

/// How many values were entered for a coefficient zone by zone.
pub open spec fn count_of<T>(value: Zoned<T>) -> Option<int> {
    match value {
        Zoned::Constant(_) => None,
        Zoned::PerZone(list) => Some(list@.len() as int),
    }
}

/// How many values were entered for the coefficient of a material that is called so.
pub open spec fn entries(m: MaterialEntry, label: Label) -> Option<int> {
    let c = m.orthotropic;
    match label {
        Label::E => count_of(m.isotropic.e),
        Label::Nu => count_of(m.isotropic.nu),
        Label::C11 => count_of(c.c11),
        Label::C12 => count_of(c.c12),
        Label::C13 => count_of(c.c13),
        Label::C22 => count_of(c.c22),
        Label::C23 => count_of(c.c23),
        Label::C33 => count_of(c.c33),
        Label::C44 => count_of(c.c44),
        Label::C55 => count_of(c.c55),
        Label::C66 => count_of(c.c66),
        Label::E1 => count_of(c.e1),
        Label::E2 => count_of(c.e2),
    }
}

/// Whether what is said of the coefficients of a material is true: there are not as many values as
/// zones, or the constants of a zone, counted from one, cannot be those of a material.
pub open spec fn is_true_of(cause: CoefficientError, m: MaterialEntry) -> bool {
    match cause {
        CoefficientError::Count { label, mismatch } => entries(m, label) == Some(
            mismatch.entered as int,
        ) && mismatch.zones == m.num_zones && mismatch.entered != mismatch.zones,
        CoefficientError::InZone { zone, cause } => {
            let z = zone - 1;
            let (e, nu) = (value_in_zone(m.isotropic.e, z), value_in_zone(m.isotropic.nu, z));
            let positive = (Double { bits: 0 }).is_below(e) && e.is_finite();
            &&& 0 <= z < m.num_zones
            &&& match cause {
                Unphysical::YoungModulus { e: told } => told == e && !positive,
                Unphysical::PoissonRatio { nu: told } => told == nu && positive && !(
                (Double { bits: 0xbff0_0000_0000_0000 }).is_below(nu) && nu.is_below(
                    Double { bits: 0x3fe0_0000_0000_0000 },
                )),
            }
        },
    }
}

proof fn lemma_entered_fits<T>(value: Zoned<T>)
    ensures
        value matches Zoned::PerZone(list) ==> list@.len() <= usize::MAX,
{
    if let Zoned::PerZone(list) = value {
        let n = list.len();
        assert(list@.len() == n);
    }
}

proof fn lemma_unphysical_zone(es: Seq<Double>, nus: Seq<Double>, n: nat)
    requires
        n <= usize::MAX,
        first_unphysical(es, nus, n) is Some,
    ensures
        ({
            let (zone, cause) = first_unphysical(es, nus, n)->0;
            let (e, nu) = (es[zone - 1], nus[zone - 1]);
            let positive = (Double { bits: 0 }).is_below(e) && e.is_finite();
            &&& 1 <= zone <= n
            &&& match cause {
                Unphysical::YoungModulus { e: told } => told == e && !positive,
                Unphysical::PoissonRatio { nu: told } => told == nu && positive && !(
                (Double { bits: 0xbff0_0000_0000_0000 }).is_below(nu) && nu.is_below(
                    Double { bits: 0x3fe0_0000_0000_0000 },
                )),
            }
        }),
    decreases n,
{
    if first_unphysical(es, nus, (n - 1) as nat) is Some {
        lemma_unphysical_zone(es, nus, (n - 1) as nat);
    }
}

proof fn lemma_lame_error(m: MaterialEntry)
    requires
        m.isotropic.lame(m.num_zones as nat) is Err,
    ensures
        is_true_of(m.isotropic.lame(m.num_zones as nat)->Err_0, m),
{
    let n = m.num_zones as nat;
    lemma_entered_fits(m.isotropic.e);
    lemma_entered_fits(m.isotropic.nu);
    let (es, nus) = (
        coefficient(m.isotropic.e@, n, Label::E),
        coefficient(m.isotropic.nu@, n, Label::Nu),
    );
    if es is Ok && nus is Ok {
        lemma_unphysical_zone(es->Ok_0, nus->Ok_0, n);
        let (zone, cause) = first_unphysical(es->Ok_0, nus->Ok_0, n)->0;
        assert(es->Ok_0[zone - 1] == value_in_zone(m.isotropic.e, zone - 1));
        assert(nus->Ok_0[zone - 1] == value_in_zone(m.isotropic.nu, zone - 1));
    }
}

proof fn lemma_contribution_error(m: MaterialEntry)
    requires
        m.contribution() is Err,
    ensures
        is_true_of(m.contribution()->Err_0, m),
{
    let c = m.orthotropic;
    if m.law == LawKind::ElasticIsotropic {
        lemma_lame_error(m);
    } else {
        lemma_entered_fits(c.c12);
        lemma_entered_fits(c.c13);
        lemma_entered_fits(c.c23);
        lemma_entered_fits(c.c44);
        lemma_entered_fits(c.c55);
        lemma_entered_fits(c.c66);
    }
}

proof fn lemma_stiffness_error(m: MaterialEntry, k: nat, show: spec_fn(Double) -> Seq<char>)
    requires
        k <= 9,
        stiffness_text(m.orthotropic, m.num_zones as nat, k, show) is Err,
    ensures
        is_true_of(stiffness_text(m.orthotropic, m.num_zones as nat, k, show)->Err_0, m),
    decreases k,
{
    let c = m.orthotropic;
    let n = m.num_zones as nat;
    if stiffness_text(c, n, (k - 1) as nat, show) is Err {
        lemma_stiffness_error(m, (k - 1) as nat, show);
    } else {
        let value = c.stiffness()[k - 1];
        let label = stiffness_label(k - 1);
        lemma_entered_fits(c.c11);
        lemma_entered_fits(c.c12);
        lemma_entered_fits(c.c13);
        lemma_entered_fits(c.c22);
        lemma_entered_fits(c.c23);
        lemma_entered_fits(c.c33);
        lemma_entered_fits(c.c44);
        lemma_entered_fits(c.c55);
        lemma_entered_fits(c.c66);
        assert(value is PerZone && entries(m, label) == Some(value.entered() as int));
    }
}

proof fn lemma_text_error(m: MaterialEntry, show: spec_fn(Double) -> Seq<char>)
    requires
        material_text(m, show) is Err,
    ensures
        is_true_of(material_text(m, show)->Err_0, m),
{
    if m.law == LawKind::ElasticIsotropic {
        lemma_lame_error(m);
    } else {
        let c = m.orthotropic;
        lemma_entered_fits(c.e1);
        lemma_entered_fits(c.e2);
        if stiffness_text(c, m.num_zones as nat, 9, show) is Err {
            lemma_stiffness_error(m, 9, show);
        }
    }
}

proof fn lemma_contributions_error(materials: Seq<MaterialEntry>, k: nat) -> (i: int)
    requires
        contributions(materials, k) is Err,
    ensures
        0 <= i < k,
        is_true_of(contributions(materials, k)->Err_0, materials[i]),
    decreases k,
{
    if contributions(materials, (k - 1) as nat) is Err {
        lemma_contributions_error(materials, (k - 1) as nat)
    } else {
        lemma_contribution_error(materials[k - 1]);
        k - 1
    }
}

proof fn lemma_blocks_error(
    materials: Seq<MaterialEntry>,
    order: Seq<Ranked>,
    k: nat,
    show: spec_fn(Double) -> Seq<char>,
) -> (i: int)
    requires
        material_blocks(materials, order, k, show) is Err,
    ensures
        0 <= i < k,
        ({
            let m = materials[order[i].place as int];
            material_blocks(materials, order, k, show)->Err_0 matches MaterialError::InMaterial {
                num_m,
                cause,
            } && num_m == m.num_m && is_true_of(cause, m)
        }),
    decreases k,
{
    if material_blocks(materials, order, (k - 1) as nat, show) is Err {
        lemma_blocks_error(materials, order, (k - 1) as nat, show)
    } else {
        lemma_text_error(materials[order[k - 1].place as int], show);
        k - 1
    }
}

proof fn lemma_law_error(materials: Seq<MaterialEntry>, k: nat) -> (i: int)
    requires
        first_unimplemented(materials, k) is Some,
    ensures
        0 <= i < k,
        first_unimplemented(materials, k) == Some(
            MaterialError::Unimplemented { num_m: materials[i].num_m, law: materials[i].law },
        ),
        materials[i].law != LawKind::ElasticIsotropic,
        materials[i].law != LawKind::ElasticOrthotropic,
        forall|j: int|
            0 <= j < i ==> (#[trigger] materials[j]).law == LawKind::ElasticIsotropic
                || materials[j].law == LawKind::ElasticOrthotropic,
    decreases k,
{
    if first_unimplemented(materials, (k - 1) as nat) is Some {
        lemma_law_error(materials, (k - 1) as nat)
    } else {
        lemma_laws_so_far(materials, (k - 1) as nat);
        k - 1
    }
}

proof fn lemma_laws_so_far(materials: Seq<MaterialEntry>, k: nat)
    requires
        first_unimplemented(materials, k) is None,
    ensures
        forall|j: int|
            0 <= j < k ==> (#[trigger] materials[j]).law == LawKind::ElasticIsotropic
                || materials[j].law == LawKind::ElasticOrthotropic,
    decreases k,
{
    if k > 0 {
        lemma_laws_so_far(materials, (k - 1) as nat);
    }
}

proof fn lemma_gap_error(order: Seq<Ranked>, k: nat) -> (i: int)
    requires
        k <= usize::MAX,
        first_gap(order, k) is Some,
    ensures
        0 <= i < k,
        first_gap(order, k) == Some(
            MaterialError::NotContiguous {
                num_m: order[i].key as usize,
                position: (i + 1) as usize,
            },
        ),
        order[i].key != i + 1,
    decreases k,
{
    if first_gap(order, (k - 1) as nat) is Some {
        lemma_gap_error(order, (k - 1) as nat)
    } else {
        k - 1
    }
}

/// What materials are refused for is true of them: there are none; the first whose law cannot be
/// used is named; a number is not where it would stand if they were one, two and so on; or the
/// coefficients of a material are not as they must be.
pub proof fn refused_materials_are_at_fault<S: Fn(Double) -> String>(
    materials: Vec<MaterialEntry>,
    show: S,
    error: MaterialError,
)
    requires
        writes(show),
        call_ensures(
            generate_mat_xml::<S>,
            (&materials, &show),
            Err::<String, MaterialError>(error),
        ),
    ensures
        match error {
            MaterialError::NoMaterials => materials@.len() == 0,
            MaterialError::Unimplemented { num_m, law } => exists|i: int|
                0 <= i < materials@.len() && (#[trigger] materials@[i]).num_m == num_m
                    && materials@[i].law == law && law != LawKind::ElasticIsotropic && law
                    != LawKind::ElasticOrthotropic,
            MaterialError::NotContiguous { num_m, position } => num_m != position && 1 <= position
                <= materials@.len() && exists|i: int|
                0 <= i < materials@.len() && (#[trigger] materials@[i]).num_m == num_m,
            MaterialError::Reference { cause } => exists|i: int|
                0 <= i < materials@.len() && is_true_of(cause, #[trigger] materials@[i]),
            MaterialError::InMaterial { num_m, cause } => exists|i: int|
                0 <= i < materials@.len() && (#[trigger] materials@[i]).num_m == num_m
                    && is_true_of(cause, materials@[i]),
        },
{
    let all = materials@;
    let n = all.len();
    let len = materials.len();
    assert(n == len);
    let w = writer(show);
    let order = ranking(material_numbers(all));
    ranking_is_an_order(material_numbers(all));
    assert(mat_xml(all, w) == Err::<Seq<char>, MaterialError>(error));
    if n > 0 {
        if first_unimplemented(all, n) is Some {
            let i = lemma_law_error(all, n);
            assert(all[i].num_m == all[i].num_m);
        } else if first_gap(order, n) is Some {
            let i = lemma_gap_error(order, n);
            let p = order[i].place as int;
            assert(order[i].key == material_numbers(all)[p]);
            assert(all[p].num_m == order[i].key);
        } else if contributions(all, n) is Err {
            let i = lemma_contributions_error(all, n);
            assert(is_true_of(contributions(all, n)->Err_0, all[i]));
        } else {
            let i = lemma_blocks_error(all, order, n, w);
            let p = order[i].place as int;
            assert(all[p].num_m == all[p].num_m);
        }
    }
}

/// What is said of refused materials names the material, its law, or the coefficient.
pub proof fn refusals_name_the_material(error: MaterialError, r: String)
    requires
        call_ensures(MaterialError::message, (&error,), r),
    ensures
        match error {
            MaterialError::NoMaterials => r@
                == "no materials defined — select a Material ID VTK file first"@,
            MaterialError::Unimplemented { num_m, law } => r@ == "material "@ + decimal(
                num_m as nat,
            ) + " uses \""@ + law.title()
                + "\", which isn't implemented yet — pick a different law"@,
            MaterialError::NotContiguous { num_m, position } => r@
                == "material numbers must be contiguous starting at 1 — found numM="@ + decimal(
                num_m as nat,
            ) + " at position "@ + decimal(position as nat),
            MaterialError::Reference { cause: CoefficientError::InZone { zone, .. } } => r@
                == "zone "@ + decimal(zone as nat),
            MaterialError::Reference { cause: CoefficientError::Count { label, mismatch } } => r@
                == label.text() + ": "@ + decimal(mismatch.entered as nat)
                + " per-zone value(s) entered, but this material has "@ + decimal(
                mismatch.zones as nat,
            ) + " zone(s)"@,
            MaterialError::InMaterial { num_m, .. } => r@ == "material "@ + decimal(num_m as nat),
        },
{
}

/// What is said of constants that cannot be those of a material names the constant and its value.
pub proof fn unphysical_constants_are_told<S: Fn(Double) -> String>(
    cause: Unphysical,
    show: S,
    r: String,
)
    requires
        writes(show),
        call_ensures(Unphysical::message::<S>, (&cause, &show), r),
    ensures
        match cause {
            Unphysical::YoungModulus { e } => r@ == "E must be positive (got "@ + shown(show, e)
                + ")"@,
            Unphysical::PoissonRatio { nu } => r@ == "nu must be strictly between -1 and 0.5 (got "@
                + shown(show, nu)
                + ") — nu=0.5 is the incompressible limit, where lambda diverges to infinity"@,
        },
{
}

/// What is said of identifiers tells which they are and what was found.
pub proof fn identifier_errors_are_told<S: Fn(Double) -> String>(
    error: IdError,
    show: S,
    r: String,
)
    requires
        writes(show),
        call_ensures(IdError::message::<S>, (&error, &show), r),
    ensures
        ({
            let name = |kind: IdKind|
                if kind is Material {
                    "material ID"@
                } else {
                    "zone ID"@
                };
            match error {
                IdError::NoVoxels { kind } => r@ == "no voxels found for this "@ + name(kind),
                IdError::BadStart { kind, min } => r@ == name(kind)
                    + "s must start at 0 or 1 (AMITEX requirement) — found minimum "@ + shown(
                    show,
                    min,
                ),
                IdError::NotInteger { kind, found } => r@ == name(kind)
                    + "s must be integers — found "@ + shown(show, found),
                IdError::Gaps { kind, count, min, max, expected } => r@ == name(kind)
                    + "s must be contiguous with no gaps — found "@ + decimal(count as nat)
                    + " distinct value(s) but the range "@ + shown(show, min) + "..="@ + shown(
                    show,
                    max,
                ) + " implies "@ + decimal(expected as nat),
                IdError::VoxelCounts { materials, zones } => r@ == "material ID VTK ("@ + decimal(
                    materials as nat,
                ) + " voxels) and zone ID VTK ("@ + decimal(zones as nat)
                    + " voxels) have different voxel counts"@,
            }
        }),
{
}

/// Where identifiers have gaps, the number that is expected is that of the integers from the first
/// to the last.
pub proof fn gaps_tell_the_expected_number(
    ids: Vec<Double>,
    kind: IdKind,
    error: IdError,
    first: int,
    last: int,
)
    requires
        call_ensures(
            validate_contiguous_ids,
            (&ids, kind),
            Err::<Vec<(Double, usize)>, IdError>(error),
        ),
        error is Gaps,
        is_integer_value(ids@[0], first),
        is_integer_value(ids@.last(), last),
        0 <= first <= last,
        last - first < 0x1f_ffff_ffff_ffff,
        last - first < usize::MAX,
    ensures
        error->expected == last - first + 1,
{
    lemma_expected(ids@, first, last - first);
}

} // verus!
