//! Coefficients that are the same all over a material or have one value in each of its zones.
use crate::double::Double;
use crate::text::decimal;
use crate::writing::push_count;
use vstd::prelude::*;

verus! {

/// What a coefficient can hold: a value with a zero to fall back on.
pub trait Coefficient: Copy {
    spec fn none() -> Self;

    fn zero() -> (r: Self)
        ensures
            r == Self::none(),
    ;
}

impl Coefficient for Double {
    open spec fn none() -> Double {
        Double { bits: 0 }
    }

    fn zero() -> (r: Double) {
        Double { bits: 0 }
    }
}

impl Coefficient for [Double; 3] {
    open spec fn none() -> [Double; 3] {
        [Double { bits: 0 }, Double { bits: 0 }, Double { bits: 0 }]
    }

    fn zero() -> (r: [Double; 3]) {
        [Double { bits: 0 }, Double { bits: 0 }, Double { bits: 0 }]
    }
}

/// A coefficient of a material: one value for the whole of it, or one for each zone in the order
/// of the zone numbers. Each coefficient of a material chooses for itself.
#[derive(Debug)]
pub enum Zoned<T> {
    Constant(T),
    PerZone(Vec<T>),
}

/// A coefficient that is a number.
pub type ZoneValue = Zoned<Double>;

/// A coefficient that is a vector. It varies as a whole: what changes from zone to zone is an
/// orientation.
pub type ZoneVec3 = Zoned<[Double; 3]>;

/// What a `Zoned` holds.
pub enum Zoning<T> {
    Constant(T),
    PerZone(Seq<T>),
}

/// `n` times the value `v`.
pub open spec fn repeated<T>(v: T, n: nat) -> Seq<T> {
    Seq::new(n, |i: int| v)
}

/// `vals` cut or extended to length `n`; what is added repeats the last value.
pub open spec fn fitted<T: Coefficient>(vals: Seq<T>, n: nat) -> Seq<T> {
    Seq::new(
        n,
        |i: int|
            if i < vals.len() {
                vals[i]
            } else if vals.len() > 0 {
                vals.last()
            } else {
                T::none()
            },
    )
}

impl<T: Coefficient> Zoning<T> {
    /// The coefficient for `n` zones.
    pub open spec fn resized(self, n: nat) -> Zoning<T> {
        match self {
            Zoning::Constant(v) => self,
            Zoning::PerZone(vals) => Zoning::PerZone(fitted(vals, n)),
        }
    }

    /// The coefficient with one value, or with one for each of `n` zones.
    pub open spec fn switched(self, per_zone: bool, n: nat) -> Zoning<T> {
        match self {
            Zoning::Constant(v) => if per_zone {
                Zoning::PerZone(repeated(v, n))
            } else {
                self
            },
            Zoning::PerZone(vals) => if per_zone {
                self.resized(n)
            } else if vals.len() > 0 {
                Zoning::Constant(vals[0])
            } else {
                Zoning::Constant(T::none())
            },
        }
    }

    /// The values in `n` zones, where there are as many.
    pub open spec fn resolved(self, n: nat) -> Option<Seq<T>> {
        match self {
            Zoning::Constant(v) => Some(repeated(v, n)),
            Zoning::PerZone(vals) => if vals.len() == n {
                Some(vals)
            } else {
                None
            },
        }
    }

    /// How many values there are, where they are given zone by zone.
    pub open spec fn entered(self) -> nat {
        match self {
            Zoning::Constant(v) => 0,
            Zoning::PerZone(vals) => vals.len(),
        }
    }
}

impl<T> View for Zoned<T> {
    type V = Zoning<T>;

    open spec fn view(&self) -> Zoning<T> {
        match *self {
            Zoned::Constant(v) => Zoning::Constant(v),
            Zoned::PerZone(vals) => Zoning::PerZone(vals@),
        }
    }
}

/// `n` copies of `v`.
pub fn copies<T: Copy>(v: T, n: usize) -> (r: Vec<T>)
    ensures
        r@ == repeated(v, n as nat),
{
    let mut r: Vec<T> = Vec::new();
    let mut i: usize = 0;
    while i < n
        invariant
            i <= n,
            r@ == repeated(v, i as nat),
        decreases n - i,
    {
        r.push(v);
        assert(r@ =~= repeated(v, (i + 1) as nat));
        i += 1;
    }
    r
}

/// `vals` cut or extended to length `n`.
fn fit<T: Coefficient>(vals: &Vec<T>, n: usize) -> (r: Vec<T>)
    ensures
        r@ == fitted(vals@, n as nat),
{
    let mut r: Vec<T> = Vec::new();
    let mut i: usize = 0;
    while i < n
        invariant
            i <= n,
            r@ == fitted(vals@, i as nat),
        decreases n - i,
    {
        if i < vals.len() {
            r.push(vals[i]);
        } else if vals.len() > 0 {
            r.push(vals[vals.len() - 1]);
        } else {
            r.push(T::zero());
        }
        assert(r@ =~= fitted(vals@, (i + 1) as nat));
        i += 1;
    }
    r
}

/// The number of values that were entered is not the number of zones.
#[derive(Clone, Copy, PartialEq, Eq, Structural, Debug)]
pub struct CountMismatch {
    pub entered: usize,
    pub zones: usize,
}

impl CountMismatch {
    /// What is said of it, for the coefficient called `label`.
    pub open spec fn text(self, label: Seq<char>) -> Seq<char> {
        label + ": "@ + decimal(self.entered as nat)
            + " per-zone value(s) entered, but this material has "@ + decimal(self.zones as nat)
            + " zone(s)"@
    }

    /// Says of which coefficient and by how much.
    pub fn message(&self, label: &str) -> (r: String)
        ensures
            r@ == self.text(label@),
    {
        let mut r: String = label.to_owned();
        r.append(": ");
        push_count(&mut r, self.entered);
        r.append(" per-zone value(s) entered, but this material has ");
        push_count(&mut r, self.zones);
        r.append(" zone(s)");
        r
    }
}

impl<T: Coefficient> Zoned<T> {
    /// Whether the coefficient has one value for each zone.
    pub fn is_per_zone(&self) -> (r: bool)
        ensures
            r == (self@ is PerZone),
    {
        match self {
            Zoned::Constant(_) => false,
            Zoned::PerZone(_) => true,
        }
    }

    /// Switches between one value and one for each of `num_zones` zones, and carries over what
    /// can be carried over.
    pub fn set_per_zone(&mut self, per_zone: bool, num_zones: usize)
        ensures
            final(self)@ == old(self)@.switched(per_zone, num_zones as nat),
    {
        let next: Zoned<T> = match self {
            Zoned::Constant(v) => {
                if per_zone {
                    Zoned::PerZone(copies(*v, num_zones))
                } else {
                    Zoned::Constant(*v)
                }
            },
            Zoned::PerZone(vals) => {
                if per_zone {
                    Zoned::PerZone(fit(vals, num_zones))
                } else if vals.len() > 0 {
                    Zoned::Constant(vals[0])
                } else {
                    Zoned::Constant(T::zero())
                }
            },
        };
        *self = next;
    }

    /// Keeps as many values as there are zones. A new zone starts with the value of the last one,
    /// so that more zones do not lose what was entered. A single value stays as it is.
    pub fn resize(&mut self, num_zones: usize)
        ensures
            final(self)@ == old(self)@.resized(num_zones as nat),
    {
        let next: Zoned<T> = match self {
            Zoned::Constant(v) => Zoned::Constant(*v),
            Zoned::PerZone(vals) => Zoned::PerZone(fit(vals, num_zones)),
        };
        *self = next;
    }

    /// The value in each of `num_zones` zones: a single value counts for all of them, and a list
    /// must have that length.
    pub fn resolve(&self, num_zones: usize) -> (r: Result<Vec<T>, CountMismatch>)
        ensures
            r matches Ok(vals) ==> self@.resolved(num_zones as nat) == Some(vals@),
            r matches Err(e) ==> self@.resolved(num_zones as nat) is None && e.entered
                == self@.entered() && e.zones == num_zones,
    {
        match self {
            Zoned::Constant(v) => Ok(copies(*v, num_zones)),
            Zoned::PerZone(vals) => {
                if vals.len() != num_zones {
                    return Err(CountMismatch { entered: vals.len(), zones: num_zones });
                }
                let r: Vec<T> = fit(vals, num_zones);
                assert(r@ =~= vals@);
                Ok(r)
            },
        }
    }
}

impl<T: Coefficient> Clone for Zoned<T> {
    fn clone(&self) -> (r: Zoned<T>)
        ensures
            r@ == self@,
    {
        match self {
            Zoned::Constant(v) => Zoned::Constant(*v),
            Zoned::PerZone(vals) => {
                let r: Vec<T> = fit(vals, vals.len());
                assert(r@ =~= vals@);
                Zoned::PerZone(r)
            },
        }
    }
}

impl Default for Zoned<Double> {
    fn default() -> (r: Zoned<Double>)
        ensures
            r == Zoned::<Double>::Constant(Double { bits: 0 }),
    {
        Zoned::Constant(Double { bits: 0 })
    }
}

/// After a switch or a change of size, the coefficient has a value in each zone.
pub proof fn sizing_resolves<T: Coefficient>(z: Zoning<T>, per_zone: bool, n: nat)
    ensures
        z.switched(per_zone, n).resolved(n) is Some,
        z.resized(n).resolved(n) is Some,
        z.switched(per_zone, n) is PerZone == per_zone,
{
}

/// A single value that is spread over some zones and then taken together again is what it was.
pub proof fn spreading_is_undone<T: Coefficient>(v: T, n: nat, m: nat)
    requires
        n > 0,
    ensures
        Zoning::Constant(v).switched(true, n).switched(false, m) == Zoning::Constant(v),
{
}

/// A change of size keeps the values of the zones that exist before and after it.
pub proof fn resizing_keeps<T: Coefficient>(vals: Seq<T>, n: nat, i: int)
    requires
        0 <= i < n,
        i < vals.len(),
    ensures
        Zoning::PerZone(vals).resized(n)->PerZone_0[i] == vals[i],
        Zoning::PerZone(vals).resized(n)->PerZone_0.len() == n,
{
}

/// Resizing to the length that a list has changes nothing, and neither does doing it twice.
pub proof fn resizing_settles<T: Coefficient>(z: Zoning<T>, n: nat)
    ensures
        z is PerZone && z.entered() == n ==> z.resized(n) == z,
        z.resized(n).resized(n) == z.resized(n),
        z.switched(true, n) == z.switched(true, n).resized(n),
{
    if z is PerZone {
        let vals = z->PerZone_0;
        if vals.len() == n {
            assert(fitted(vals, n) =~= vals);
        }
        assert(fitted(fitted(vals, n), n) =~= fitted(vals, n));
    } else {
        let v = z->Constant_0;
        assert(fitted(repeated(v, n), n) =~= repeated(v, n));
    }
}

} // verus!
