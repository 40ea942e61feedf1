//! What is entered for a material: its law, and its coefficients zone by zone.
use crate::arithmetic::{difference, integer, product, quotient, sum};
use crate::double::Double;
use crate::formula::Arithmetic;
use crate::preproc::materials::{IsotropicCoeffs, Label, LawKind, Unphysical};
use crate::preproc::zones::{Coefficient, CountMismatch, Zoned, Zoning};
use crate::text::decimal;
use vstd::prelude::*;

verus! {

/// A single value counts for every zone; values that are given zone by zone count where there is
/// one for each zone, and else both counts are told.
pub proof fn values_count_zone_by_zone(
    value: Zoned<Double>,
    n: usize,
    r: Result<Vec<Double>, CountMismatch>,
)
    requires
        call_ensures(Zoned::<Double>::resolve, (&value, n), r),
    ensures
        match value {
            Zoned::Constant(v) => r matches Ok(list) && list@.len() == n && forall|z: int|
                0 <= z < n ==> #[trigger] list@[z] == v,
            Zoned::PerZone(given) => if given@.len() == n {
                r matches Ok(list) && list@ == given@
            } else {
                r matches Err(e) && e.entered == given@.len() && e.zones == n
            },
        },
{
}

/// Constants are accepted exactly where Young's modulus is positive and finite, and Poisson's ratio
/// lies between -1 and 1/2; otherwise the one that is wrong is told.
pub proof fn physical_constants_are_accepted(e: Double, nu: Double, r: Result<(), Unphysical>)
    requires
        call_ensures(IsotropicCoeffs::validate_one, (e, nu), r),
    ensures
        ({
            let zero = Double { bits: 0 };
            let half = Double { bits: 0x3fe0_0000_0000_0000 };
            let minus_one = Double { bits: 0xbff0_0000_0000_0000 };
            let good = zero.is_below(e) && e.is_finite();
            let between = minus_one.is_below(nu) && nu.is_below(half);
            &&& r is Ok <==> good && between
            &&& !good ==> r == Err::<(), Unphysical>(Unphysical::YoungModulus { e })
            &&& good && !between ==> r == Err::<(), Unphysical>(Unphysical::PoissonRatio { nu })
        }),
{
}

/// More zones get the last value that was entered, fewer zones lose the last values, and the other
/// values stay in their zones. A single value stays as it is.
pub proof fn resizing_repeats_the_last_value<T: Coefficient>(z: Zoning<T>, n: nat, i: int)
    requires
        0 <= i < n,
    ensures
        z is Constant ==> z.resized(n) == z,
        z matches Zoning::PerZone(vals) ==> (z.resized(n) matches Zoning::PerZone(r) && {
            &&& r.len() == n
            &&& i < vals.len() ==> r[i] == vals[i]
            &&& 0 < vals.len() <= i ==> r[i] == vals[vals.len() - 1]
            &&& vals.len() == 0 ==> r[i] == T::none()
        }),
{
}

/// A single value is given to every zone where zones are wanted, and where they are no longer
/// wanted the value of the first zone is kept.
pub proof fn switching_carries_values_over<T: Coefficient>(z: Zoning<T>, n: nat)
    ensures
        z matches Zoning::Constant(v) ==> z.switched(false, n) == z && (z.switched(
            true,
            n,
        ) matches Zoning::PerZone(r) && r.len() == n && forall|i: int|
            0 <= i < n ==> #[trigger] r[i] == v),
        z matches Zoning::PerZone(vals) ==> z.switched(true, n) == z.resized(n) && (
        vals.len() > 0 ==> z.switched(false, n) == Zoning::Constant(vals[0])) && (vals.len() == 0
            ==> z.switched(false, n) == Zoning::Constant(T::none())),
{
}

/// Where there are not as many values as zones, both numbers are told, with the coefficient.
pub proof fn miscounts_are_told(e: CountMismatch, label: &str, r: String)
    requires
        call_ensures(CountMismatch::message, (&e, label), r),
    ensures
        r@ == label@ + ": "@ + decimal(e.entered as nat)
            + " per-zone value(s) entered, but this material has "@ + decimal(e.zones as nat)
            + " zone(s)"@,
{
}

/// Isotropic and orthotropic elasticity are the laws that can be used, and each law has a name of
/// its own for the solver.
pub proof fn two_laws_can_be_used(law: LawKind, can_be_used: bool, name: &str)
    requires
        call_ensures(LawKind::implemented, (&law,), can_be_used),
        call_ensures(LawKind::amitex_name, (&law,), name),
    ensures
        can_be_used <==> law is ElasticIsotropic || law is ElasticOrthotropic,
        law is ElasticIsotropic ==> name@ == "elasiso"@,
        law is ElasticOrthotropic ==> name@ == "elasaniso"@,
        law is ElasticIsotropicEigenstrain ==> name@ == "elasiso_eigs"@,
        law is ElasticIsotropicLargeStrain ==> name@ == "elasiso_GD"@,
        law is ElasticOrthotropicLargeStrain ==> name@ == "elasaniso_GD"@,
        law is Thermoelastic ==> name@ == "thermoelasiso"@,
        law is ThermoelasticExternalParam ==> name@ == "paramextelasiso"@,
        law is ImposedStress ==> name@ == "contrainte_imposee"@,
        law is ViscoelasticMaxwell ==> name@ == "viscoelas_maxwell"@,
{
}

/// The Lamé coefficients belong to Young's modulus and Poisson's ratio: the second is `e` over
/// twice the sum of one and `nu`, the first `e` times `nu` over that sum times one less twice `nu`.
pub proof fn lame_coefficients_belong_to_the_constants(e: Double, nu: Double, r: (Double, Double))
    requires
        call_ensures(IsotropicCoeffs::lame_one, (e, nu), r),
    ensures
        ({
            let more = sum(integer(1), nu);
            let less = difference(integer(1), product(integer(2), nu));
            &&& r.0 == quotient(product(e, nu), product(more, less))
            &&& r.1 == quotient(e, product(integer(2), more))
        }),
{
    assert(Double::natural(1) == integer(1));
    assert(Double::natural(2) == integer(2));
}

/// Each law is shown under a title of its own, which says where it cannot be used yet.
pub proof fn titles_say_which_laws_can_be_used(law: LawKind, title: &str)
    requires
        call_ensures(LawKind::label, (&law,), title),
    ensures
        law is ElasticIsotropic ==> title@ == "Elastic — isotropic"@,
        law is ElasticOrthotropic ==> title@ == "Elastic — orthotropic"@,
        law is ElasticIsotropicEigenstrain ==> title@
            == "Elastic — isotropic + eigenstrain (not yet implemented)"@,
        law is ElasticIsotropicLargeStrain ==> title@
            == "Elastic — isotropic, large strain (not yet implemented)"@,
        law is ElasticOrthotropicLargeStrain ==> title@
            == "Elastic — orthotropic, large strain (not yet implemented)"@,
        law is Thermoelastic ==> title@ == "Thermoelastic — isotropic (not yet implemented)"@,
        law is ThermoelasticExternalParam ==> title@
            == "Thermoelastic — external parameter (not yet implemented)"@,
        law is ImposedStress ==> title@ == "Imposed stress (not yet implemented)"@,
        law is ViscoelasticMaxwell ==> title@
            == "Viscoelastic — generalized Maxwell (not yet implemented)"@,
{
}

/// Each coefficient has its symbol.
pub proof fn coefficients_have_their_symbols(label: Label, name: &str)
    requires
        call_ensures(Label::name, (&label,), name),
    ensures
        label is E ==> name@ == "E"@,
        label is Nu ==> name@ == "nu"@,
        label is C11 ==> name@ == "C11"@,
        label is C12 ==> name@ == "C12"@,
        label is C13 ==> name@ == "C13"@,
        label is C22 ==> name@ == "C22"@,
        label is C23 ==> name@ == "C23"@,
        label is C33 ==> name@ == "C33"@,
        label is C44 ==> name@ == "C44"@,
        label is C55 ==> name@ == "C55"@,
        label is C66 ==> name@ == "C66"@,
        label is E1 ==> name@ == "e1"@,
        label is E2 ==> name@ == "e2"@,
{
}

} // verus!
