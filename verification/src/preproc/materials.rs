//! The constitutive laws of materials, their coefficients, and the file that tells the solver of
//! them.
//!
//! Two laws can be used: isotropic and orthotropic linear elasticity. Both answer a strain at once
//! with a stress that is linear in it, which is what makes six unit strains enough to find a
//! stiffness. The solver's other laws are listed but cannot be chosen: an eigenstrain or large
//! strains would spoil the stiffness that is read from the stresses, the thermoelastic laws need a
//! temperature in the loading, an imposed stress has no stiffness, and viscoelasticity needs a
//! loading history.
use crate::double::{Double, WIDE_TOP};
use crate::formula::{number, real_over, real_times, Arithmetic};
use crate::preproc::zones::{CountMismatch, ZoneValue, ZoneVec3, Zoned, Zoning};
use crate::text::decimal;
use crate::writing::{push_count, write_number, writer, writes};
use vstd::prelude::*;

verus! {

/// A constitutive law.
#[derive(Clone, Copy, PartialEq, Eq, Structural, Debug)]
pub enum LawKind {
    ElasticIsotropic,
    ElasticOrthotropic,
    ElasticIsotropicEigenstrain,
    ElasticIsotropicLargeStrain,
    ElasticOrthotropicLargeStrain,
    Thermoelastic,
    ThermoelasticExternalParam,
    ImposedStress,
    ViscoelasticMaxwell,
}

impl LawKind {
    /// Every law, in the order in which they are offered.
    pub const ALL: [LawKind; 9] = [
        LawKind::ElasticIsotropic,
        LawKind::ElasticOrthotropic,
        LawKind::ElasticIsotropicEigenstrain,
        LawKind::ElasticIsotropicLargeStrain,
        LawKind::ElasticOrthotropicLargeStrain,
        LawKind::Thermoelastic,
        LawKind::ThermoelasticExternalParam,
        LawKind::ImposedStress,
        LawKind::ViscoelasticMaxwell,
    ];

    pub open spec fn title(self) -> Seq<char> {
        match self {
            LawKind::ElasticIsotropic => "Elastic — isotropic"@,
            LawKind::ElasticOrthotropic => "Elastic — orthotropic"@,
            LawKind::ElasticIsotropicEigenstrain =>
                "Elastic — isotropic + eigenstrain (not yet implemented)"@,
            LawKind::ElasticIsotropicLargeStrain =>
                "Elastic — isotropic, large strain (not yet implemented)"@,
            LawKind::ElasticOrthotropicLargeStrain =>
                "Elastic — orthotropic, large strain (not yet implemented)"@,
            LawKind::Thermoelastic => "Thermoelastic — isotropic (not yet implemented)"@,
            LawKind::ThermoelasticExternalParam =>
                "Thermoelastic — external parameter (not yet implemented)"@,
            LawKind::ImposedStress => "Imposed stress (not yet implemented)"@,
            LawKind::ViscoelasticMaxwell =>
                "Viscoelastic — generalized Maxwell (not yet implemented)"@,
        }
    }

    /// The name shown for the law.
    pub fn label(&self) -> (r: &'static str)
        ensures
            r@ == self.title(),
    {
        match self {
            LawKind::ElasticIsotropic => "Elastic — isotropic",
            LawKind::ElasticOrthotropic => "Elastic — orthotropic",
            LawKind::ElasticIsotropicEigenstrain =>
                "Elastic — isotropic + eigenstrain (not yet implemented)",
            LawKind::ElasticIsotropicLargeStrain =>
                "Elastic — isotropic, large strain (not yet implemented)",
            LawKind::ElasticOrthotropicLargeStrain =>
                "Elastic — orthotropic, large strain (not yet implemented)",
            LawKind::Thermoelastic => "Thermoelastic — isotropic (not yet implemented)",
            LawKind::ThermoelasticExternalParam =>
                "Thermoelastic — external parameter (not yet implemented)",
            LawKind::ImposedStress => "Imposed stress (not yet implemented)",
            LawKind::ViscoelasticMaxwell =>
                "Viscoelastic — generalized Maxwell (not yet implemented)",
        }
    }

    pub open spec fn solver_name(self) -> Seq<char> {
        match self {
            LawKind::ElasticIsotropic => "elasiso"@,
            LawKind::ElasticOrthotropic => "elasaniso"@,
            LawKind::ElasticIsotropicEigenstrain => "elasiso_eigs"@,
            LawKind::ElasticIsotropicLargeStrain => "elasiso_GD"@,
            LawKind::ElasticOrthotropicLargeStrain => "elasaniso_GD"@,
            LawKind::Thermoelastic => "thermoelasiso"@,
            LawKind::ThermoelasticExternalParam => "paramextelasiso"@,
            LawKind::ImposedStress => "contrainte_imposee"@,
            LawKind::ViscoelasticMaxwell => "viscoelas_maxwell"@,
        }
    }

    /// The solver's name for the law.
    pub fn amitex_name(&self) -> (r: &'static str)
        ensures
            r@ == self.solver_name(),
    {
        match self {
            LawKind::ElasticIsotropic => "elasiso",
            LawKind::ElasticOrthotropic => "elasaniso",
            LawKind::ElasticIsotropicEigenstrain => "elasiso_eigs",
            LawKind::ElasticIsotropicLargeStrain => "elasiso_GD",
            LawKind::ElasticOrthotropicLargeStrain => "elasaniso_GD",
            LawKind::Thermoelastic => "thermoelasiso",
            LawKind::ThermoelasticExternalParam => "paramextelasiso",
            LawKind::ImposedStress => "contrainte_imposee",
            LawKind::ViscoelasticMaxwell => "viscoelas_maxwell",
        }
    }

    pub open spec fn is_implemented(self) -> bool {
        self == LawKind::ElasticIsotropic || self == LawKind::ElasticOrthotropic
    }

    /// Whether the law can be used.
    pub fn implemented(&self) -> (r: bool)
        ensures
            r == self.is_implemented(),
    {
        match self {
            LawKind::ElasticIsotropic | LawKind::ElasticOrthotropic => true,
            _ => false,
        }
    }
}

impl Default for LawKind {
    fn default() -> (r: LawKind)
        ensures
            r == LawKind::ElasticIsotropic,
    {
        LawKind::ElasticIsotropic
    }
}

/// A coefficient that is entered for a material.
#[derive(Clone, Copy, PartialEq, Eq, Structural, Debug)]
pub enum Label {
    E,
    Nu,
    C11,
    C12,
    C13,
    C22,
    C23,
    C33,
    C44,
    C55,
    C66,
    E1,
    E2,
}

impl Label {
    pub open spec fn text(self) -> Seq<char> {
        match self {
            Label::E => "E"@,
            Label::Nu => "nu"@,
            Label::C11 => "C11"@,
            Label::C12 => "C12"@,
            Label::C13 => "C13"@,
            Label::C22 => "C22"@,
            Label::C23 => "C23"@,
            Label::C33 => "C33"@,
            Label::C44 => "C44"@,
            Label::C55 => "C55"@,
            Label::C66 => "C66"@,
            Label::E1 => "e1"@,
            Label::E2 => "e2"@,
        }
    }

    /// The coefficient's symbol.
    pub fn name(&self) -> (r: &'static str)
        ensures
            r@ == self.text(),
    {
        match self {
            Label::E => "E",
            Label::Nu => "nu",
            Label::C11 => "C11",
            Label::C12 => "C12",
            Label::C13 => "C13",
            Label::C22 => "C22",
            Label::C23 => "C23",
            Label::C33 => "C33",
            Label::C44 => "C44",
            Label::C55 => "C55",
            Label::C66 => "C66",
            Label::E1 => "e1",
            Label::E2 => "e2",
        }
    }
}

/// Elastic constants that no finite stiffness belongs to.
#[derive(Clone, Copy, PartialEq, Eq, Structural, Debug)]
pub enum Unphysical {
    YoungModulus { e: Double },
    PoissonRatio { nu: Double },
}

impl Unphysical {
    pub open spec fn text(self, show: spec_fn(Double) -> Seq<char>) -> Seq<char> {
        match self {
            Unphysical::YoungModulus { e } => "E must be positive (got "@ + show(e) + ")"@,
            Unphysical::PoissonRatio { nu } => "nu must be strictly between -1 and 0.5 (got "@
                + show(nu)
                + ") — nu=0.5 is the incompressible limit, where lambda diverges to infinity"@,
        }
    }

    /// Says what is wrong.
    pub fn message<S: Fn(Double) -> String>(&self, show: &S) -> (r: String)
        requires
            writes(*show),
        ensures
            r@ == self.text(writer(*show)),
    {
        match self {
            Unphysical::YoungModulus { e } => {
                let mut r: String = "E must be positive (got ".to_owned();
                r.append(write_number(show, *e).as_str());
                r.append(")");
                r
            },
            Unphysical::PoissonRatio { nu } => {
                let mut r: String = "nu must be strictly between -1 and 0.5 (got ".to_owned();
                r.append(write_number(show, *nu).as_str());
                r.append(
                    ") — nu=0.5 is the incompressible limit, where lambda diverges to infinity",
                );
                r
            },
        }
    }
}

/// Why a material's coefficients cannot be used.
#[derive(Clone, Copy, PartialEq, Eq, Structural, Debug)]
pub enum CoefficientError {
    /// A coefficient is entered zone by zone, but not for as many zones as there are.
    Count { label: Label, mismatch: CountMismatch },
    /// The constants of a zone, counted from one, are unphysical.
    InZone { zone: usize, cause: Unphysical },
}

impl CoefficientError {
    pub open spec fn text(self) -> Seq<char> {
        match self {
            CoefficientError::Count { label, mismatch } => mismatch.text(label.text()),
            CoefficientError::InZone { zone, cause } => "zone "@ + decimal(zone as nat),
        }
    }

    /// Says which coefficient, or which zone, is at fault.
    pub fn message(&self) -> (r: String)
        ensures
            r@ == self.text(),
    {
        match self {
            CoefficientError::Count { label, mismatch } => mismatch.message(label.name()),
            CoefficientError::InZone { zone, .. } => {
                let mut r: String = "zone ".to_owned();
                push_count(&mut r, *zone);
                r
            },
        }
    }
}

/// Whether a computed result is the one that is meant.
pub open spec fn agrees<T>(
    r: Result<Vec<T>, CoefficientError>,
    meant: Result<Seq<T>, CoefficientError>,
) -> bool {
    match (r, meant) {
        (Ok(v), Ok(s)) => v@ == s,
        (Err(e), Err(f)) => e == f,
        _ => false,
    }
}

/// The values of a coefficient in `n` zones.
pub open spec fn coefficient(value: Zoning<Double>, n: nat, label: Label) -> Result<
    Seq<Double>,
    CoefficientError,
> {
    match value.resolved(n) {
        Some(vals) => Ok(vals),
        None => Err(
            CoefficientError::Count {
                label,
                mismatch: CountMismatch { entered: value.entered() as usize, zones: n as usize },
            },
        ),
    }
}

fn resolve_coefficient(value: &ZoneValue, num_zones: usize, label: Label) -> (r: Result<
    Vec<Double>,
    CoefficientError,
>)
    ensures
        agrees(r, coefficient(value@, num_zones as nat, label)),
        r matches Ok(vals) ==> vals@.len() == num_zones,
{
    match value.resolve(num_zones) {
        Ok(vals) => Ok(vals),
        Err(mismatch) => Err(CoefficientError::Count { label, mismatch }),
    }
}

/// The first Lamé coefficient of an isotropic material.
pub open spec fn lambda_of<V: Arithmetic>(e: V, nu: V) -> V {
    e.multiplied(nu).divided(
        V::natural(1).added(nu).multiplied(
            V::natural(1).reduced(V::natural(2).multiplied(nu)),
        ),
    )
}

/// The shear modulus of an isotropic material.
pub open spec fn mu_of<V: Arithmetic>(e: V, nu: V) -> V {
    e.divided(V::natural(2).multiplied(V::natural(1).added(nu)))
}

pub open spec fn minus_one() -> Double {
    Double { bits: 0xbff0_0000_0000_0000 }
}

pub open spec fn one_half() -> Double {
    Double { bits: 0x3fe0_0000_0000_0000 }
}

/// What is wrong with the elastic constants `e` and `nu`, if anything: Young's modulus must be
/// positive and finite, and Poisson's ratio must lie between -1 and 0.5. At 0.5 the first Lamé
/// coefficient would be infinite.
pub open spec fn unphysical(e: Double, nu: Double) -> Option<Unphysical> {
    let zero = Double { bits: 0 };
    if !(zero.is_below(e) && e.is_finite()) {
        Some(Unphysical::YoungModulus { e })
    } else if !(minus_one().is_below(nu) && nu.is_below(one_half())) {
        Some(Unphysical::PoissonRatio { nu })
    } else {
        None
    }
}

/// The first of `n` zones whose constants are unphysical, counted from one, and why.
pub open spec fn first_unphysical(es: Seq<Double>, nus: Seq<Double>, n: nat) -> Option<
    (usize, Unphysical),
>
    decreases n,
{
    if n == 0 {
        None
    } else {
        match first_unphysical(es, nus, (n - 1) as nat) {
            Some(found) => Some(found),
            None => match unphysical(es[n - 1], nus[n - 1]) {
                Some(cause) => Some((n as usize, cause)),
                None => None,
            },
        }
    }
}

/// The coefficients of isotropic elasticity, entered as Young's modulus and Poisson's ratio.
pub struct IsotropicCoeffs {
    pub e: ZoneValue,
    pub nu: ZoneValue,
}

impl Default for IsotropicCoeffs {
    fn default() -> (r: IsotropicCoeffs)
        ensures
            r.e == Zoned::<Double>::Constant(Double { bits: 0 }),
            r.nu == Zoned::<Double>::Constant(Double { bits: 0 }),
    {
        IsotropicCoeffs { e: Zoned::default(), nu: Zoned::default() }
    }
}

impl Clone for IsotropicCoeffs {
    fn clone(&self) -> (r: IsotropicCoeffs)
        ensures
            r.e@ == self.e@,
            r.nu@ == self.nu@,
    {
        IsotropicCoeffs { e: self.e.clone(), nu: self.nu.clone() }
    }
}

impl IsotropicCoeffs {
    /// Rejects constants that no finite stiffness belongs to.
    pub fn validate_one(e: Double, nu: Double) -> (r: Result<(), Unphysical>)
        ensures
            match r {
                Ok(_) => unphysical(e, nu) is None,
                Err(cause) => unphysical(e, nu) == Some(cause),
            },
    {
        let zero: Double = Double { bits: 0 };
        if !zero.below(e) || e.get_magnitude() >= WIDE_TOP {
            return Err(Unphysical::YoungModulus { e });
        }
        if !(Double { bits: 0xbff0_0000_0000_0000 }.below(nu) && nu.below(
            Double { bits: 0x3fe0_0000_0000_0000 },
        )) {
            return Err(Unphysical::PoissonRatio { nu });
        }
        Ok(())
    }

    /// The Lamé coefficients: `lambda = E nu / ((1 + nu) (1 - 2 nu))`, `mu = E / (2 (1 + nu))`.
    pub fn lame_one(e: Double, nu: Double) -> (r: (Double, Double))
        ensures
            r.0 == lambda_of(e, nu),
            r.1 == mu_of(e, nu),
    {
        let one: Double = number(1);
        let two: Double = number(2);
        let lambda: Double = e.times(nu).divided_by(one.plus(nu).times(one.minus(two.times(nu))));
        let mu: Double = e.divided_by(two.times(one.plus(nu)));
        (lambda, mu)
    }

    /// The Lamé coefficients in each of `n` zones.
    pub open spec fn lame(self, n: nat) -> Result<Seq<(Double, Double)>, CoefficientError> {
        match coefficient(self.e@, n, Label::E) {
            Err(error) => Err(error),
            Ok(es) => match coefficient(self.nu@, n, Label::Nu) {
                Err(error) => Err(error),
                Ok(nus) => match first_unphysical(es, nus, n) {
                    Some(found) => Err(
                        CoefficientError::InZone { zone: found.0, cause: found.1 },
                    ),
                    None => Ok(
                        Seq::new(n, |i: int| (lambda_of(es[i], nus[i]), mu_of(es[i], nus[i]))),
                    ),
                },
            },
        }
    }

    /// The Lamé coefficients in each zone. Where one of the constants is a single value, it
    /// counts for every zone.
    pub fn lame_per_zone(&self, num_zones: usize) -> (r: Result<
        Vec<(Double, Double)>,
        CoefficientError,
    >)
        ensures
            agrees(r, self.lame(num_zones as nat)),
            r matches Ok(pairs) ==> pairs@.len() == num_zones,
    {
        let es: Vec<Double> = match resolve_coefficient(&self.e, num_zones, Label::E) {
            Ok(vals) => vals,
            Err(error) => {
                return Err(error);
            },
        };
        let nus: Vec<Double> = match resolve_coefficient(&self.nu, num_zones, Label::Nu) {
            Ok(vals) => vals,
            Err(error) => {
                return Err(error);
            },
        };
        let mut pairs: Vec<(Double, Double)> = Vec::new();
        let mut zone: usize = 0;
        while zone < num_zones
            invariant
                zone <= num_zones,
                es@.len() == num_zones,
                nus@.len() == num_zones,
                coefficient(self.e@, num_zones as nat, Label::E)->Ok_0 == es@,
                coefficient(self.e@, num_zones as nat, Label::E) is Ok,
                coefficient(self.nu@, num_zones as nat, Label::Nu)->Ok_0 == nus@,
                coefficient(self.nu@, num_zones as nat, Label::Nu) is Ok,
                first_unphysical(es@, nus@, zone as nat) is None,
                pairs@ == Seq::new(
                    zone as nat,
                    |i: int| (lambda_of(es@[i], nus@[i]), mu_of(es@[i], nus@[i])),
                ),
            decreases num_zones - zone,
        {
            let e: Double = es[zone];
            let nu: Double = nus[zone];
            match IsotropicCoeffs::validate_one(e, nu) {
                Ok(_) => {},
                Err(cause) => {
                    proof {
                        lemma_first_unphysical(es@, nus@, (zone + 1) as nat, num_zones as nat);
                    }
                    return Err(CoefficientError::InZone { zone: zone + 1, cause });
                },
            }
            pairs.push(IsotropicCoeffs::lame_one(e, nu));
            zone += 1;
            assert(pairs@ =~= Seq::new(
                zone as nat,
                |i: int| (lambda_of(es@[i], nus@[i]), mu_of(es@[i], nus@[i])),
            ));
        }
        Ok(pairs)
    }
}

/// The coefficients of orthotropic elasticity: the upper triangle of the stiffness in the local
/// basis, and the first two vectors of that basis. The solver makes them orthonormal and finds the
/// third.
pub struct OrthotropicCoeffs {
    pub c11: ZoneValue,
    pub c12: ZoneValue,
    pub c13: ZoneValue,
    pub c22: ZoneValue,
    pub c23: ZoneValue,
    pub c33: ZoneValue,
    pub c44: ZoneValue,
    pub c55: ZoneValue,
    pub c66: ZoneValue,
    pub e1: ZoneVec3,
    pub e2: ZoneVec3,
}

/// The unit vector along the first axis.
pub open spec fn first_axis() -> [Double; 3] {
    [Double { bits: 0x3ff0_0000_0000_0000 }, Double { bits: 0 }, Double { bits: 0 }]
}

/// The unit vector along the second axis.
pub open spec fn second_axis() -> [Double; 3] {
    [Double { bits: 0 }, Double { bits: 0x3ff0_0000_0000_0000 }, Double { bits: 0 }]
}

impl Default for OrthotropicCoeffs {
    fn default() -> (r: OrthotropicCoeffs)
        ensures
            r.stiffness() == Seq::new(
                9,
                |i: int| Zoning::<Double>::Constant(Double { bits: 0 }),
            ),
            r.e1@ == Zoning::Constant(first_axis()),
            r.e2@ == Zoning::Constant(second_axis()),
    {
        let zero: Double = Double { bits: 0 };
        let one: Double = Double { bits: 0x3ff0_0000_0000_0000 };
        let r: OrthotropicCoeffs = OrthotropicCoeffs {
            c11: Zoned::default(),
            c12: Zoned::default(),
            c13: Zoned::default(),
            c22: Zoned::default(),
            c23: Zoned::default(),
            c33: Zoned::default(),
            c44: Zoned::default(),
            c55: Zoned::default(),
            c66: Zoned::default(),
            e1: Zoned::Constant([one, zero, zero]),
            e2: Zoned::Constant([zero, one, zero]),
        };
        assert(r.stiffness() =~= Seq::new(
            9,
            |i: int| Zoning::<Double>::Constant(Double { bits: 0 }),
        ));
        r
    }
}

impl OrthotropicCoeffs {
    /// The stiffness coefficients in the solver's order.
    pub open spec fn stiffness(self) -> Seq<Zoning<Double>> {
        seq![
            self.c11@,
            self.c12@,
            self.c13@,
            self.c22@,
            self.c23@,
            self.c33@,
            self.c44@,
            self.c55@,
            self.c66@,
        ]
    }
}

/// A third of the sum of three numbers.
pub open spec fn mean<V: Arithmetic>(a: V, b: V, c: V) -> V {
    a.added(b).added(c).divided(V::natural(3))
}

fn mean_of(a: Double, b: Double, c: Double) -> (r: Double)
    ensures
        r == mean(a, b, c),
{
    a.plus(b).plus(c).divided_by(number(3))
}

/// The mean of three coefficients in each of `n` zones.
pub open spec fn zone_means(
    a: Result<Seq<Double>, CoefficientError>,
    b: Result<Seq<Double>, CoefficientError>,
    c: Result<Seq<Double>, CoefficientError>,
    n: nat,
) -> Result<Seq<Double>, CoefficientError> {
    match a {
        Err(error) => Err(error),
        Ok(xs) => match b {
            Err(error) => Err(error),
            Ok(ys) => match c {
                Err(error) => Err(error),
                Ok(zs) => Ok(Seq::new(n, |i: int| mean(xs[i], ys[i], zs[i]))),
            },
        },
    }
}

/// One material: its law, and the coefficients of both laws that can be used, so that changing
/// the law back and forth loses nothing that was entered.
pub struct MaterialEntry {
    /// The solver's number for the material, from one.
    pub num_m: usize,
    /// The value that the material's voxels have in the file.
    pub vtk_id: Double,
    /// How many zones the material has.
    pub num_zones: usize,
    pub law: LawKind,
    pub isotropic: IsotropicCoeffs,
    pub orthotropic: OrthotropicCoeffs,
}

fn zone_mean(
    a: &ZoneValue,
    b: &ZoneValue,
    c: &ZoneValue,
    la: Label,
    lb: Label,
    lc: Label,
    n: usize,
) -> (r: Result<Vec<Double>, CoefficientError>)
    ensures
        agrees(
            r,
            zone_means(
                coefficient(a@, n as nat, la),
                coefficient(b@, n as nat, lb),
                coefficient(c@, n as nat, lc),
                n as nat,
            ),
        ),
        r matches Ok(vals) ==> vals@.len() == n,
{
    let xs: Vec<Double> = match resolve_coefficient(a, n, la) {
        Ok(vals) => vals,
        Err(error) => {
            return Err(error);
        },
    };
    let ys: Vec<Double> = match resolve_coefficient(b, n, lb) {
        Ok(vals) => vals,
        Err(error) => {
            return Err(error);
        },
    };
    let zs: Vec<Double> = match resolve_coefficient(c, n, lc) {
        Ok(vals) => vals,
        Err(error) => {
            return Err(error);
        },
    };
    let mut r: Vec<Double> = Vec::new();
    let mut i: usize = 0;
    while i < n
        invariant
            i <= n,
            xs@.len() == n,
            ys@.len() == n,
            zs@.len() == n,
            r@ == Seq::new(i as nat, |j: int| mean(xs@[j], ys@[j], zs@[j])),
        decreases n - i,
    {
        r.push(mean_of(xs[i], ys[i], zs[i]));
        i += 1;
        assert(r@ =~= Seq::new(i as nat, |j: int| mean(xs@[j], ys@[j], zs@[j])));
    }
    Ok(r)
}

impl MaterialEntry {
    /// What the material counts for in the choice of the reference medium, zone by zone: its Lamé
    /// coefficients, or for an orthotropic material the means of its off-diagonal and of its
    /// shear coefficients. A law that cannot be used counts for nothing.
    pub open spec fn contribution(self) -> Result<Seq<(Double, Double)>, CoefficientError> {
        let n = self.num_zones as nat;
        let c = self.orthotropic;
        match self.law {
            LawKind::ElasticIsotropic => self.isotropic.lame(n),
            LawKind::ElasticOrthotropic => match zone_means(
                coefficient(c.c12@, n, Label::C12),
                coefficient(c.c13@, n, Label::C13),
                coefficient(c.c23@, n, Label::C23),
                n,
            ) {
                Err(error) => Err(error),
                Ok(ls) => match zone_means(
                    coefficient(c.c44@, n, Label::C44),
                    coefficient(c.c55@, n, Label::C55),
                    coefficient(c.c66@, n, Label::C66),
                    n,
                ) {
                    Err(error) => Err(error),
                    Ok(ms) => Ok(Seq::new(n, |i: int| (ls[i], ms[i]))),
                },
            },
            _ => Ok(Seq::empty()),
        }
    }

    fn contribute(&self) -> (r: Result<Vec<(Double, Double)>, CoefficientError>)
        ensures
            agrees(r, self.contribution()),
    {
        match self.law {
            LawKind::ElasticIsotropic => self.isotropic.lame_per_zone(self.num_zones),
            LawKind::ElasticOrthotropic => {
                let n: usize = self.num_zones;
                let c: &OrthotropicCoeffs = &self.orthotropic;
                let ls: Vec<Double> = match zone_mean(
                    &c.c12,
                    &c.c13,
                    &c.c23,
                    Label::C12,
                    Label::C13,
                    Label::C23,
                    n,
                ) {
                    Ok(vals) => vals,
                    Err(error) => {
                        return Err(error);
                    },
                };
                let ms: Vec<Double> = match zone_mean(
                    &c.c44,
                    &c.c55,
                    &c.c66,
                    Label::C44,
                    Label::C55,
                    Label::C66,
                    n,
                ) {
                    Ok(vals) => vals,
                    Err(error) => {
                        return Err(error);
                    },
                };
                let mut r: Vec<(Double, Double)> = Vec::new();
                let mut i: usize = 0;
                while i < n
                    invariant
                        i <= n,
                        ls@.len() == n,
                        ms@.len() == n,
                        r@ == Seq::new(i as nat, |j: int| (ls@[j], ms@[j])),
                    decreases n - i,
                {
                    r.push((ls[i], ms[i]));
                    i += 1;
                    assert(r@ =~= Seq::new(i as nat, |j: int| (ls@[j], ms@[j])));
                }
                Ok(r)
            },
            _ => {
                let r: Vec<(Double, Double)> = Vec::new();
                assert(r@ =~= Seq::empty());
                Ok(r)
            },
        }
    }
}

/// What the first `k` materials count for, one after another; the first error where one has one.
pub open spec fn contributions(materials: Seq<MaterialEntry>, k: nat) -> Result<
    Seq<(Double, Double)>,
    CoefficientError,
>
    decreases k,
{
    if k == 0 {
        Ok(Seq::empty())
    } else {
        match contributions(materials, (k - 1) as nat) {
            Err(error) => Err(error),
            Ok(before) => match materials[k - 1].contribution() {
                Err(error) => Err(error),
                Ok(own) => Ok(before + own),
            },
        }
    }
}

proof fn lemma_contributions(materials: Seq<MaterialEntry>, k: nat, n: nat)
    requires
        k <= n,
        contributions(materials, k) is Err,
    ensures
        contributions(materials, n) == contributions(materials, k),
    decreases n,
{
    if k < n {
        lemma_contributions(materials, k, (n - 1) as nat);
    }
}

/// The least of `values`, or infinity where there is none; NaN does not count.
pub open spec fn least(values: Seq<Double>) -> Double
    decreases values.len(),
{
    if values.len() == 0 {
        Double { bits: 0x7ff0_0000_0000_0000 }
    } else {
        let before = least(values.drop_last());
        if values.last().is_below(before) {
            values.last()
        } else {
            before
        }
    }
}

/// The greatest of `values`, or minus infinity where there is none; NaN does not count.
pub open spec fn greatest(values: Seq<Double>) -> Double
    decreases values.len(),
{
    if values.len() == 0 {
        Double { bits: 0xfff0_0000_0000_0000 }
    } else {
        let before = greatest(values.drop_last());
        if before.is_below(values.last()) {
            values.last()
        } else {
            before
        }
    }
}

/// Half way between two numbers.
pub open spec fn middle<V: Arithmetic>(low: V, high: V) -> V {
    low.added(high).divided(V::natural(2))
}

/// The first numbers of some pairs.
pub open spec fn firsts(pairs: Seq<(Double, Double)>) -> Seq<Double> {
    pairs.map_values(|p: (Double, Double)| p.0)
}

/// The second numbers of some pairs.
pub open spec fn seconds(pairs: Seq<(Double, Double)>) -> Seq<Double> {
    pairs.map_values(|p: (Double, Double)| p.1)
}

/// The Lamé coefficients of the reference medium: for each, half way between the least and the
/// greatest in any zone of any material.
pub open spec fn reference_medium(materials: Seq<MaterialEntry>) -> Result<
    (Double, Double),
    CoefficientError,
> {
    match contributions(materials, materials.len()) {
        Err(error) => Err(error),
        Ok(pairs) => Ok(
            (
                middle(least(firsts(pairs)), greatest(firsts(pairs))),
                middle(least(seconds(pairs)), greatest(seconds(pairs))),
            ),
        ),
    }
}

/// The Lamé coefficients of the reference medium. The medium is no real material: it affects how
/// fast the solver converges, not what it converges to.
pub fn reference_lambda_mu(materials: &Vec<MaterialEntry>) -> (r: Result<
    (Double, Double),
    CoefficientError,
>)
    ensures
        r == reference_medium(materials@),
{
    let mut lambda_low: Double = Double { bits: 0x7ff0_0000_0000_0000 };
    let mut lambda_high: Double = Double { bits: 0xfff0_0000_0000_0000 };
    let mut mu_low: Double = Double { bits: 0x7ff0_0000_0000_0000 };
    let mut mu_high: Double = Double { bits: 0xfff0_0000_0000_0000 };
    let ghost mut pairs: Seq<(Double, Double)> = Seq::empty();
    let mut k: usize = 0;
    while k < materials.len()
        invariant
            k <= materials@.len(),
            contributions(materials@, k as nat) is Ok,
            contributions(materials@, k as nat)->Ok_0 == pairs,
            lambda_low == least(firsts(pairs)),
            lambda_high == greatest(firsts(pairs)),
            mu_low == least(seconds(pairs)),
            mu_high == greatest(seconds(pairs)),
        decreases materials@.len() - k,
    {
        let own: Vec<(Double, Double)> = match materials[k].contribute() {
            Ok(own) => own,
            Err(error) => {
                proof {
                    lemma_contributions(materials@, (k + 1) as nat, materials@.len());
                }
                return Err(error);
            },
        };
        let ghost before = pairs;
        assert(own@.take(0) =~= Seq::empty());
        assert(before + own@.take(0) =~= before);
        let mut i: usize = 0;
        while i < own.len()
            invariant
                i <= own@.len(),
                pairs == before + own@.take(i as int),
                lambda_low == least(firsts(pairs)),
                lambda_high == greatest(firsts(pairs)),
                mu_low == least(seconds(pairs)),
                mu_high == greatest(seconds(pairs)),
            decreases own@.len() - i,
        {
            let (lambda, mu): (Double, Double) = own[i];
            let ghost next = pairs.push((lambda, mu));
            proof {
                assert(own@.take(i + 1) =~= own@.take(i as int).push(own@[i as int]));
                assert(next =~= before + own@.take(i + 1));
                assert(firsts(next).drop_last() =~= firsts(pairs));
                assert(seconds(next).drop_last() =~= seconds(pairs));
                pairs = next;
            }
            if lambda.below(lambda_low) {
                lambda_low = lambda;
            }
            if lambda_high.below(lambda) {
                lambda_high = lambda;
            }
            if mu.below(mu_low) {
                mu_low = mu;
            }
            if mu_high.below(mu) {
                mu_high = mu;
            }
            i += 1;
        }
        assert(own@.take(i as int) =~= own@);
        k += 1;
    }
    let two: Double = number(2);
    Ok(
        (
            lambda_low.plus(lambda_high).divided_by(two),
            mu_low.plus(mu_high).divided_by(two),
        ),
    )
}

proof fn lemma_first_unphysical(es: Seq<Double>, nus: Seq<Double>, k: nat, n: nat)
    requires
        k <= n,
        first_unphysical(es, nus, k) is Some,
    ensures
        first_unphysical(es, nus, n) == first_unphysical(es, nus, k),
    decreases n,
{
    if k < n {
        lemma_first_unphysical(es, nus, k, (n - 1) as nat);
    }
}

/// No value is less than the least or greater than the greatest.
pub proof fn least_and_greatest_bound(values: Seq<Double>, i: int)
    requires
        0 <= i < values.len(),
    ensures
        !values[i].is_below(least(values)),
        !greatest(values).is_below(values[i]),
        !least(values).is_nan(),
        !greatest(values).is_nan(),
    decreases values.len(),
{
    lemma_bounds_are_numbers(values);
    lemma_bounds_are_numbers(values.drop_last());
    if i < values.len() - 1 {
        least_and_greatest_bound(values.drop_last(), i);
    }
}

pub proof fn lemma_bounds_are_numbers(values: Seq<Double>)
    ensures
        !least(values).is_nan(),
        !greatest(values).is_nan(),
    decreases values.len(),
{
    if values.len() > 0 {
        lemma_bounds_are_numbers(values.drop_last());
    }
}

/// In exact arithmetic the Lamé coefficients of physical constants determine the constants:
/// `E = mu (3 lambda + 2 mu) / (lambda + mu)` and `nu = lambda / (2 (lambda + mu))`.
pub proof fn lame_determines_constants(e: real, nu: real)
    requires
        e > 0real,
        nu > -1real,
        2real * nu < 1real,
    ensures
        ({
            let lambda = lambda_of(e, nu);
            let mu = mu_of(e, nu);
            &&& lambda + mu > 0real
            &&& mu > 0real
            &&& e == mu * (3real * lambda + 2real * mu) / (lambda + mu)
            &&& nu == lambda / (2real * (lambda + mu))
        }),
{
    reveal(real_times);
    reveal(real_over);
    let p = 1real + nu;
    let q = 1real - 2real * nu;
    let lambda = lambda_of(e, nu);
    let mu = mu_of(e, nu);
    let a = e / (2real * (p * q));
    assert(p * q > 0real) by (nonlinear_arith)
        requires
            p > 0real,
            q > 0real,
    ;
    assert(a > 0real) by (nonlinear_arith)
        requires
            a == e / (2real * (p * q)),
            e > 0real,
            p * q > 0real,
    ;
    assert(e == a * (2real * (p * q))) by (nonlinear_arith)
        requires
            a == e / (2real * (p * q)),
            p * q > 0real,
    ;
    assert(mu == a * q) by (nonlinear_arith)
        requires
            mu == e / (2real * p),
            e == a * (2real * (p * q)),
            p > 0real,
    ;
    assert(lambda == 2real * (a * nu)) by (nonlinear_arith)
        requires
            lambda == (e * nu) / (p * q),
            e == a * (2real * (p * q)),
            p * q > 0real,
    ;
    assert(lambda + mu == a) by (nonlinear_arith)
        requires
            lambda == 2real * (a * nu),
            mu == a * q,
            q == 1real - 2real * nu,
    ;
    assert(mu * (3real * lambda + 2real * mu) == e * a) by (nonlinear_arith)
        requires
            e == a * (2real * (p * q)),
            lambda == 2real * (a * nu),
            mu == a * q,
            p == 1real + nu,
            q == 1real - 2real * nu,
    ;
    assert((e * a) / a == e) by (nonlinear_arith)
        requires
            a > 0real,
    ;
    assert(nu == lambda / (2real * a)) by (nonlinear_arith)
        requires
            lambda == 2real * (a * nu),
            a > 0real,
    ;
    assert(mu > 0real) by (nonlinear_arith)
        requires
            mu == a * q,
            a > 0real,
            q > 0real,
    ;
}

} // verus!
