//! The material file of the solver.
use crate::double::Double;
use crate::preproc::materials::{
    contributions, first_unphysical, firsts, reference_lambda_mu, reference_medium, seconds,
    unphysical, CoefficientError, Label, LawKind, MaterialEntry, OrthotropicCoeffs,
};
use crate::preproc::zones::{Coefficient, CountMismatch, ZoneValue, ZoneVec3, Zoned, Zoning};
use crate::sorting::{in_order, ranking, ranking_is_an_order, sort, Ranked};
use crate::text::decimal;
use crate::writing::{push_count, write_number, writer, writes};
use vstd::prelude::*;
use vstd::relations::sorted_by;

verus! {

/// What opens a coefficient that has one value.
pub open spec fn constant_line(index: nat, value: Seq<char>, comment: Seq<char>) -> Seq<char> {
    "    <Coeff Index=\""@ + decimal(index) + "\" Type=\"Constant\" Value=\""@ + value
        + "\"/> <!-- "@ + comment + " -->\n"@
}

/// The value in zone `zone`, counted from one.
pub open spec fn zone_line(zone: nat, value: Seq<char>) -> Seq<char> {
    "        <Zone numZ=\""@ + decimal(zone) + "\" Value=\""@ + value + "\"/>\n"@
}

/// The values in the first `k` zones.
pub open spec fn zone_lines(
    values: Seq<Double>,
    k: nat,
    show: spec_fn(Double) -> Seq<char>,
) -> Seq<char>
    decreases k,
{
    if k == 0 {
        Seq::empty()
    } else {
        zone_lines(values, (k - 1) as nat, show) + zone_line(k, show(values[k - 1]))
    }
}

/// A coefficient with one value for each zone.
pub open spec fn zone_block(
    index: nat,
    values: Seq<Double>,
    comment: Seq<char>,
    show: spec_fn(Double) -> Seq<char>,
) -> Seq<char> {
    "    <Coeff Index=\""@ + decimal(index) + "\" Type=\"Constant_Zone\"> <!-- "@ + comment
        + " -->\n"@ + zone_lines(values, values.len(), show) + "    </Coeff>\n"@
}

fn write_constant<S: Fn(Double) -> String>(
    index: usize,
    value: Double,
    comment: &str,
    show: &S,
) -> (r: String)
    requires
        writes(*show),
    ensures
        r@ == constant_line(index as nat, writer(*show)(value), comment@),
{
    let mut r: String = "    <Coeff Index=\"".to_owned();
    push_count(&mut r, index);
    r.append("\" Type=\"Constant\" Value=\"");
    r.append(write_number(show, value).as_str());
    r.append("\"/> <!-- ");
    r.append(comment);
    r.append(" -->\n");
    r
}

fn write_zones<S: Fn(Double) -> String>(
    index: usize,
    values: &Vec<Double>,
    comment: &str,
    show: &S,
) -> (r: String)
    requires
        writes(*show),
    ensures
        r@ == zone_block(index as nat, values@, comment@, writer(*show)),
{
    let mut r: String = "    <Coeff Index=\"".to_owned();
    push_count(&mut r, index);
    r.append("\" Type=\"Constant_Zone\"> <!-- ");
    r.append(comment);
    r.append(" -->\n");
    let mut zones: String = String::new();
    let mut i: usize = 0;
    while i < values.len()
        invariant
            writes(*show),
            i <= values@.len(),
            zones@ == zone_lines(values@, i as nat, writer(*show)),
        decreases values@.len() - i,
    {
        let mut line: String = "        <Zone numZ=\"".to_owned();
        push_count(&mut line, i + 1);
        line.append("\" Value=\"");
        line.append(write_number(show, values[i]).as_str());
        line.append("\"/>\n");
        zones.append(line.as_str());
        i += 1;
    }
    r.append(zones.as_str());
    r.append("    </Coeff>\n");
    r
}

/// A coefficient as it was entered.
pub open spec fn coeff_text(
    index: nat,
    value: Zoning<Double>,
    comment: Seq<char>,
    show: spec_fn(Double) -> Seq<char>,
) -> Seq<char> {
    match value {
        Zoning::Constant(v) => constant_line(index, show(v), comment),
        Zoning::PerZone(vals) => zone_block(index, vals, comment, show),
    }
}

/// Appends a coefficient as it was entered: one value, or one for each zone.
pub fn push_coeff<S: Fn(Double) -> String>(
    xml: &mut String,
    index: usize,
    comment: &str,
    value: &ZoneValue,
    num_zones: usize,
    show: &S,
) -> (r: Result<(), CountMismatch>)
    requires
        writes(*show),
    ensures
        match r {
            Ok(_) => value@.resolved(num_zones as nat) is Some && final(xml)@ == old(xml)@
                + coeff_text(index as nat, value@, comment@, writer(*show)),
            Err(e) => value@.resolved(num_zones as nat) is None && e.entered == value@.entered()
                && e.zones == num_zones && final(xml)@ == old(xml)@,
        },
{
    match value {
        Zoned::Constant(v) => {
            let line: String = write_constant(index, *v, comment, show);
            xml.append(line.as_str());
        },
        Zoned::PerZone(_) => {
            let vals: Vec<Double> = match value.resolve(num_zones) {
                Ok(vals) => vals,
                Err(e) => {
                    return Err(e);
                },
            };
            let block: String = write_zones(index, &vals, comment, show);
            xml.append(block.as_str());
        },
    }
    Ok(())
}

/// A coefficient that was computed in each zone: where there is one zone, one value.
pub open spec fn derived_text(
    index: nat,
    values: Seq<Double>,
    comment: Seq<char>,
    show: spec_fn(Double) -> Seq<char>,
) -> Seq<char> {
    if values.len() == 1 {
        constant_line(index, show(values[0]), comment)
    } else {
        zone_block(index, values, comment, show)
    }
}

/// Appends a coefficient that was computed in each zone.
pub fn push_derived_coeff<S: Fn(Double) -> String>(
    xml: &mut String,
    index: usize,
    comment: &str,
    values: &Vec<Double>,
    show: &S,
)
    requires
        writes(*show),
    ensures
        final(xml)@ == old(xml)@ + derived_text(index as nat, values@, comment@, writer(*show)),
{
    if values.len() == 1 {
        let line: String = write_constant(index, values[0], comment, show);
        xml.append(line.as_str());
    } else {
        let block: String = write_zones(index, values, comment, show);
        xml.append(block.as_str());
    }
}

/// What a component of a vector is called.
pub open spec fn axis_name(label: Seq<char>, axis: nat) -> Seq<char> {
    label + "["@ + decimal(axis) + "]"@
}

/// One component of a vector in each zone.
pub open spec fn components(vecs: Seq<[Double; 3]>, axis: int) -> Seq<Double> {
    vecs.map_values(|v: [Double; 3]| v[axis])
}

/// One component of a vector as it was entered.
pub open spec fn axis_text(
    start: nat,
    value: Zoning<[Double; 3]>,
    label: Seq<char>,
    axis: nat,
    show: spec_fn(Double) -> Seq<char>,
) -> Seq<char> {
    match value {
        Zoning::Constant(v) => constant_line(
            start + axis,
            show(v[axis as int]),
            axis_name(label, axis),
        ),
        Zoning::PerZone(vecs) => zone_block(
            start + axis,
            components(vecs, axis as int),
            axis_name(label, axis),
            show,
        ),
    }
}

/// The components of a vector, as three coefficients.
pub open spec fn vec3_text(
    start: nat,
    value: Zoning<[Double; 3]>,
    label: Seq<char>,
    show: spec_fn(Double) -> Seq<char>,
) -> Seq<char> {
    axis_text(start, value, label, 0, show) + axis_text(start, value, label, 1, show) + axis_text(
        start,
        value,
        label,
        2,
        show,
    )
}

fn write_axis<S: Fn(Double) -> String>(
    start: usize,
    value: &ZoneVec3,
    label: &str,
    axis: usize,
    show: &S,
) -> (r: String)
    requires
        writes(*show),
        axis < 3,
        start + axis <= usize::MAX,
    ensures
        r@ == axis_text(start as nat, value@, label@, axis as nat, writer(*show)),
{
    let mut name: String = label.to_owned();
    name.append("[");
    push_count(&mut name, axis);
    name.append("]");
    match value {
        Zoned::Constant(v) => write_constant(start + axis, v[axis], name.as_str(), show),
        Zoned::PerZone(vecs) => {
            let mut vals: Vec<Double> = Vec::new();
            let mut i: usize = 0;
            while i < vecs.len()
                invariant
                    i <= vecs@.len(),
                    axis < 3,
                    vals@ == components(vecs@.take(i as int), axis as int),
                decreases vecs@.len() - i,
            {
                vals.push(vecs[i][axis]);
                i += 1;
                assert(vals@ =~= components(vecs@.take(i as int), axis as int));
            }
            assert(vecs@.take(i as int) =~= vecs@);
            write_zones(start + axis, &vals, name.as_str(), show)
        },
    }
}

/// Appends the components of a vector as three coefficients with consecutive indices.
pub fn push_vec3<S: Fn(Double) -> String>(
    xml: &mut String,
    start_index: usize,
    label: &str,
    value: &ZoneVec3,
    num_zones: usize,
    show: &S,
) -> (r: Result<(), CountMismatch>)
    requires
        writes(*show),
        start_index + 2 <= usize::MAX,
    ensures
        match r {
            Ok(_) => value@.resolved(num_zones as nat) is Some && final(xml)@ == old(xml)@
                + vec3_text(start_index as nat, value@, label@, writer(*show)),
            Err(e) => value@.resolved(num_zones as nat) is None && e.entered == value@.entered()
                && e.zones == num_zones && final(xml)@ == old(xml)@,
        },
{
    match value.resolve(num_zones) {
        Ok(_) => {},
        Err(e) => {
            return Err(e);
        },
    }
    let mut all: String = write_axis(start_index, value, label, 0, show);
    let second: String = write_axis(start_index, value, label, 1, show);
    let third: String = write_axis(start_index, value, label, 2, show);
    all.append(second.as_str());
    all.append(third.as_str());
    xml.append(all.as_str());
    Ok(())
}

/// Why no material file can be written.
#[derive(Clone, Copy, PartialEq, Eq, Structural, Debug)]
pub enum MaterialError {
    NoMaterials,
    Unimplemented { num_m: usize, law: LawKind },
    /// The materials' numbers are not one, two and so on; `position` counts from one.
    NotContiguous { num_m: usize, position: usize },
    /// The reference medium cannot be chosen.
    Reference { cause: CoefficientError },
    InMaterial { num_m: usize, cause: CoefficientError },
}

impl MaterialError {
    pub open spec fn text(self) -> Seq<char> {
        match self {
            MaterialError::NoMaterials =>
                "no materials defined — select a Material ID VTK file first"@,
            MaterialError::Unimplemented { num_m, law } => "material "@ + decimal(num_m as nat)
                + " uses \""@ + law.title()
                + "\", which isn't implemented yet — pick a different law"@,
            MaterialError::NotContiguous { num_m, position } =>
                "material numbers must be contiguous starting at 1 — found numM="@ + decimal(
                num_m as nat,
            ) + " at position "@ + decimal(position as nat),
            MaterialError::Reference { cause } => cause.text(),
            MaterialError::InMaterial { num_m, cause } => "material "@ + decimal(num_m as nat),
        }
    }

    /// Says what is wrong.
    pub fn message(&self) -> (r: String)
        ensures
            r@ == self.text(),
    {
        match self {
            MaterialError::NoMaterials => {
                "no materials defined — select a Material ID VTK file first".to_owned()
            },
            MaterialError::Unimplemented { num_m, law } => {
                let mut r: String = "material ".to_owned();
                push_count(&mut r, *num_m);
                r.append(" uses \"");
                r.append(law.label());
                r.append("\", which isn't implemented yet — pick a different law");
                r
            },
            MaterialError::NotContiguous { num_m, position } => {
                let mut r: String =
                    "material numbers must be contiguous starting at 1 — found numM=".to_owned();
                push_count(&mut r, *num_m);
                r.append(" at position ");
                push_count(&mut r, *position);
                r
            },
            MaterialError::Reference { cause } => cause.message(),
            MaterialError::InMaterial { num_m, .. } => {
                let mut r: String = "material ".to_owned();
                push_count(&mut r, *num_m);
                r
            },
        }
    }
}

/// Whether a computed text is the one that is meant.
pub open spec fn text_agrees<E>(r: Result<String, E>, meant: Result<Seq<char>, E>) -> bool {
    match (r, meant) {
        (Ok(t), Ok(s)) => t@ == s,
        (Err(e), Err(f)) => e == f,
        _ => false,
    }
}

/// The stiffness coefficient with index `i`, counted from zero.
pub open spec fn stiffness_label(i: int) -> Label {
    if i == 0 {
        Label::C11
    } else if i == 1 {
        Label::C12
    } else if i == 2 {
        Label::C13
    } else if i == 3 {
        Label::C22
    } else if i == 4 {
        Label::C23
    } else if i == 5 {
        Label::C33
    } else if i == 6 {
        Label::C44
    } else if i == 7 {
        Label::C55
    } else {
        Label::C66
    }
}

fn stiffness_at(c: &OrthotropicCoeffs, i: usize) -> (r: (Label, &ZoneValue))
    requires
        i < 9,
    ensures
        r.0 == stiffness_label(i as int),
        r.1@ == c.stiffness()[i as int],
{
    match i {
        0 => (Label::C11, &c.c11),
        1 => (Label::C12, &c.c12),
        2 => (Label::C13, &c.c13),
        3 => (Label::C22, &c.c22),
        4 => (Label::C23, &c.c23),
        5 => (Label::C33, &c.c33),
        6 => (Label::C44, &c.c44),
        7 => (Label::C55, &c.c55),
        _ => (Label::C66, &c.c66),
    }
}

/// That a coefficient is not entered for the `n` zones that there are.
pub open spec fn miscount<T: Coefficient>(
    value: Zoning<T>,
    n: nat,
    label: Label,
) -> CoefficientError {
    CoefficientError::Count {
        label,
        mismatch: CountMismatch { entered: value.entered() as usize, zones: n as usize },
    }
}

/// The first `k` stiffness coefficients.
pub open spec fn stiffness_text(
    c: OrthotropicCoeffs,
    n: nat,
    k: nat,
    show: spec_fn(Double) -> Seq<char>,
) -> Result<Seq<char>, CoefficientError>
    decreases k,
{
    if k == 0 {
        Ok(Seq::empty())
    } else {
        match stiffness_text(c, n, (k - 1) as nat, show) {
            Err(error) => Err(error),
            Ok(before) => {
                let value = c.stiffness()[k - 1];
                let label = stiffness_label(k - 1);
                if value.resolved(n) is None {
                    Err(miscount(value, n, label))
                } else {
                    Ok(before + coeff_text(k, value, label.text(), show))
                }
            },
        }
    }
}

proof fn lemma_stiffness_text(
    c: OrthotropicCoeffs,
    n: nat,
    k: nat,
    m: nat,
    show: spec_fn(Double) -> Seq<char>,
)
    requires
        k <= m,
        stiffness_text(c, n, k, show) is Err,
    ensures
        stiffness_text(c, n, m, show) == stiffness_text(c, n, k, show),
    decreases m,
{
    if k < m {
        lemma_stiffness_text(c, n, k, (m - 1) as nat, show);
    }
}

/// What opens a material.
pub open spec fn material_head(m: MaterialEntry) -> Seq<char> {
    "<Material numM=\""@ + decimal(m.num_m as nat) + "\" Lib=\"\" Law=\""@ + m.law.solver_name()
        + "\">\n"@
}

/// A material of isotropic elasticity.
pub open spec fn isotropic_text(
    m: MaterialEntry,
    show: spec_fn(Double) -> Seq<char>,
) -> Result<Seq<char>, CoefficientError> {
    match m.isotropic.lame(m.num_zones as nat) {
        Err(error) => Err(error),
        Ok(pairs) => Ok(
            material_head(m) + derived_text(
                1,
                firsts(pairs),
                "lambda"@,
                show,
            ) + derived_text(2, seconds(pairs), "mu"@, show)
                + "</Material>\n\n"@,
        ),
    }
}

/// A material of orthotropic elasticity.
pub open spec fn orthotropic_text(
    m: MaterialEntry,
    show: spec_fn(Double) -> Seq<char>,
) -> Result<Seq<char>, CoefficientError> {
    let n = m.num_zones as nat;
    let c = m.orthotropic;
    match stiffness_text(c, n, 9, show) {
        Err(error) => Err(error),
        Ok(stiffness) => if c.e1@.resolved(n) is None {
            Err(miscount(c.e1@, n, Label::E1))
        } else if c.e2@.resolved(n) is None {
            Err(miscount(c.e2@, n, Label::E2))
        } else {
            Ok(
                material_head(m) + stiffness + vec3_text(10, c.e1@, "e1"@, show) + vec3_text(
                    13,
                    c.e2@,
                    "e2"@,
                    show,
                ) + "</Material>\n\n"@,
            )
        },
    }
}

/// A material under its comment.
pub open spec fn material_text(
    m: MaterialEntry,
    show: spec_fn(Double) -> Seq<char>,
) -> Result<Seq<char>, CoefficientError> {
    let body = if m.law == LawKind::ElasticIsotropic {
        isotropic_text(m, show)
    } else {
        orthotropic_text(m, show)
    };
    match body {
        Err(error) => Err(error),
        Ok(text) => Ok("<!-- MATERIAL "@ + decimal(m.num_m as nat) + " -->\n"@ + text),
    }
}

fn write_material_head(m: &MaterialEntry) -> (r: String)
    ensures
        r@ == material_head(*m),
{
    let mut r: String = "<Material numM=\"".to_owned();
    push_count(&mut r, m.num_m);
    r.append("\" Lib=\"\" Law=\"");
    r.append(m.law.amitex_name());
    r.append("\">\n");
    r
}

fn write_isotropic<S: Fn(Double) -> String>(m: &MaterialEntry, show: &S) -> (r: Result<
    String,
    CoefficientError,
>)
    requires
        writes(*show),
    ensures
        text_agrees(r, isotropic_text(*m, writer(*show))),
{
    let pairs: Vec<(Double, Double)> = match m.isotropic.lame_per_zone(m.num_zones) {
        Ok(pairs) => pairs,
        Err(error) => {
            return Err(error);
        },
    };
    let mut lambdas: Vec<Double> = Vec::new();
    let mut mus: Vec<Double> = Vec::new();
    let mut i: usize = 0;
    while i < pairs.len()
        invariant
            i <= pairs@.len(),
            lambdas@ == firsts(pairs@.take(i as int)),
            mus@ == seconds(pairs@.take(i as int)),
        decreases pairs@.len() - i,
    {
        lambdas.push(pairs[i].0);
        mus.push(pairs[i].1);
        i += 1;
        assert(lambdas@ =~= firsts(pairs@.take(i as int)));
        assert(mus@ =~= seconds(pairs@.take(i as int)));
    }
    assert(pairs@.take(i as int) =~= pairs@);
    let mut r: String = write_material_head(m);
    push_derived_coeff(&mut r, 1, "lambda", &lambdas, show);
    push_derived_coeff(&mut r, 2, "mu", &mus, show);
    r.append("</Material>\n\n");
    Ok(r)
}

fn write_orthotropic<S: Fn(Double) -> String>(m: &MaterialEntry, show: &S) -> (r: Result<
    String,
    CoefficientError,
>)
    requires
        writes(*show),
    ensures
        text_agrees(r, orthotropic_text(*m, writer(*show))),
{
    let c: &OrthotropicCoeffs = &m.orthotropic;
    let n: usize = m.num_zones;
    let mut stiffness: String = String::new();
    let mut i: usize = 0;
    while i < 9
        invariant
            writes(*show),
            i <= 9,
            *c == m.orthotropic,
            n == m.num_zones,
            stiffness_text(*c, n as nat, i as nat, writer(*show)) is Ok,
            stiffness_text(*c, n as nat, i as nat, writer(*show))->Ok_0 == stiffness@,
        decreases 9 - i,
    {
        let (label, value): (Label, &ZoneValue) = stiffness_at(c, i);
        match push_coeff(&mut stiffness, i + 1, label.name(), value, n, show) {
            Ok(_) => {},
            Err(mismatch) => {
                proof {
                    lemma_stiffness_text(*c, n as nat, (i + 1) as nat, 9, writer(*show));
                }
                return Err(CoefficientError::Count { label, mismatch });
            },
        }
        i += 1;
    }
    let mut r: String = write_material_head(m);
    r.append(stiffness.as_str());
    match push_vec3(&mut r, 10, "e1", &c.e1, n, show) {
        Ok(_) => {},
        Err(mismatch) => {
            return Err(CoefficientError::Count { label: Label::E1, mismatch });
        },
    }
    match push_vec3(&mut r, 13, "e2", &c.e2, n, show) {
        Ok(_) => {},
        Err(mismatch) => {
            return Err(CoefficientError::Count { label: Label::E2, mismatch });
        },
    }
    r.append("</Material>\n\n");
    Ok(r)
}

fn write_material<S: Fn(Double) -> String>(m: &MaterialEntry, show: &S) -> (r: Result<
    String,
    CoefficientError,
>)
    requires
        writes(*show),
    ensures
        text_agrees(r, material_text(*m, writer(*show))),
{
    let body: Result<String, CoefficientError> = if m.law == LawKind::ElasticIsotropic {
        write_isotropic(m, show)
    } else {
        write_orthotropic(m, show)
    };
    match body {
        Err(error) => Err(error),
        Ok(text) => {
            let mut r: String = "<!-- MATERIAL ".to_owned();
            push_count(&mut r, m.num_m);
            r.append(" -->\n");
            r.append(text.as_str());
            Ok(r)
        },
    }
}

/// The first of the first `k` materials with a law that cannot be used.
pub open spec fn first_unimplemented(materials: Seq<MaterialEntry>, k: nat) -> Option<MaterialError>
    decreases k,
{
    if k == 0 {
        None
    } else {
        match first_unimplemented(materials, (k - 1) as nat) {
            Some(error) => Some(error),
            None => {
                let m = materials[k - 1];
                if m.law.is_implemented() {
                    None
                } else {
                    Some(MaterialError::Unimplemented { num_m: m.num_m, law: m.law })
                }
            },
        }
    }
}

proof fn lemma_first_unimplemented(materials: Seq<MaterialEntry>, k: nat, n: nat)
    requires
        k <= n,
        first_unimplemented(materials, k) is Some,
    ensures
        first_unimplemented(materials, n) == first_unimplemented(materials, k),
    decreases n,
{
    if k < n {
        lemma_first_unimplemented(materials, k, (n - 1) as nat);
    }
}

/// The materials' numbers.
pub open spec fn material_numbers(materials: Seq<MaterialEntry>) -> Seq<u64> {
    materials.map_values(|m: MaterialEntry| m.num_m as u64)
}

/// The first of the first `k` places of an order whose number is not its position.
pub open spec fn first_gap(order: Seq<Ranked>, k: nat) -> Option<MaterialError>
    decreases k,
{
    if k == 0 {
        None
    } else {
        match first_gap(order, (k - 1) as nat) {
            Some(error) => Some(error),
            None => if order[k - 1].key == k {
                None
            } else {
                Some(
                    MaterialError::NotContiguous {
                        num_m: order[k - 1].key as usize,
                        position: k as usize,
                    },
                )
            },
        }
    }
}

proof fn lemma_first_gap(order: Seq<Ranked>, k: nat, n: nat)
    requires
        k <= n,
        first_gap(order, k) is Some,
    ensures
        first_gap(order, n) == first_gap(order, k),
    decreases n,
{
    if k < n {
        lemma_first_gap(order, k, (n - 1) as nat);
    }
}

/// The first `k` materials in the given order.
pub open spec fn material_blocks(
    materials: Seq<MaterialEntry>,
    order: Seq<Ranked>,
    k: nat,
    show: spec_fn(Double) -> Seq<char>,
) -> Result<Seq<char>, MaterialError>
    decreases k,
{
    if k == 0 {
        Ok(Seq::empty())
    } else {
        match material_blocks(materials, order, (k - 1) as nat, show) {
            Err(error) => Err(error),
            Ok(before) => {
                let m = materials[order[k - 1].place as int];
                match material_text(m, show) {
                    Err(cause) => Err(MaterialError::InMaterial { num_m: m.num_m, cause }),
                    Ok(text) => Ok(before + text),
                }
            },
        }
    }
}

proof fn lemma_material_blocks(
    materials: Seq<MaterialEntry>,
    order: Seq<Ranked>,
    k: nat,
    n: nat,
    show: spec_fn(Double) -> Seq<char>,
)
    requires
        k <= n,
        material_blocks(materials, order, k, show) is Err,
    ensures
        material_blocks(materials, order, n, show) == material_blocks(materials, order, k, show),
    decreases n,
{
    if k < n {
        lemma_material_blocks(materials, order, k, (n - 1) as nat, show);
    }
}

/// What stands before the materials.
pub open spec fn reference_text(
    medium: (Double, Double),
    show: spec_fn(Double) -> Seq<char>,
) -> Seq<char> {
    "<?xml version=\"1.0\" encoding=\"UTF-8\"?>\n"@ + "<Materials>\n\n"@
        + "<!-- REFERENCE MATERIAL (FFT scheme convergence only, not a real material) -->\n"@
        + "<Reference_Material Lambda0=\""@ + show(medium.0) + "\" Mu0=\""@ + show(medium.1)
        + "\" />\n\n"@
}

/// The material file: the reference medium, then each material in the order of their numbers.
pub open spec fn mat_xml(
    materials: Seq<MaterialEntry>,
    show: spec_fn(Double) -> Seq<char>,
) -> Result<Seq<char>, MaterialError> {
    let n = materials.len();
    let order = ranking(material_numbers(materials));
    if n == 0 {
        Err(MaterialError::NoMaterials)
    } else if first_unimplemented(materials, n) is Some {
        Err(first_unimplemented(materials, n)->0)
    } else if first_gap(order, n) is Some {
        Err(first_gap(order, n)->0)
    } else {
        match reference_medium(materials) {
            Err(cause) => Err(MaterialError::Reference { cause }),
            Ok(medium) => match material_blocks(materials, order, n, show) {
                Err(error) => Err(error),
                Ok(blocks) => Ok(reference_text(medium, show) + blocks + "</Materials>\n"@),
            },
        }
    }
}

/// The materials' places in the order of their numbers.
fn order_of(materials: &Vec<MaterialEntry>) -> (r: Vec<Ranked>)
    ensures
        r@ == ranking(material_numbers(materials@)),
        r@.len() == materials@.len(),
        forall|i: int|
            0 <= i < r@.len() ==> (#[trigger] r@[i]).place < materials@.len() && r@[i].key
                == materials@[r@[i].place as int].num_m,
{
    let mut all: Vec<Ranked> = Vec::new();
    let mut i: usize = 0;
    let ghost keys = material_numbers(materials@);
    while i < materials.len()
        invariant
            i <= materials@.len(),
            keys == material_numbers(materials@),
            all@ == Seq::new(i as nat, |j: int| Ranked { key: keys[j], place: j as usize }),
        decreases materials@.len() - i,
    {
        all.push(Ranked { key: materials[i].num_m as u64, place: i });
        i += 1;
        assert(all@ =~= Seq::new(i as nat, |j: int| Ranked { key: keys[j], place: j as usize }));
    }
    let r: Vec<Ranked> = sort(&all);
    proof {
        assert(materials@.len() <= usize::MAX) by {
            assert(materials@.len() == i);
        }
        ranking_is_an_order(keys);
    }
    r
}

/// Generates the material file.
pub fn generate_mat_xml<S: Fn(Double) -> String>(
    materials: &Vec<MaterialEntry>,
    show: &S,
) -> (r: Result<String, MaterialError>)
    requires
        writes(*show),
    ensures
        text_agrees(r, mat_xml(materials@, writer(*show))),
{
    let n: usize = materials.len();
    if n == 0 {
        return Err(MaterialError::NoMaterials);
    }
    let mut i: usize = 0;
    while i < n
        invariant
            i <= n,
            n == materials@.len(),
            n > 0,
            first_unimplemented(materials@, i as nat) is None,
        decreases n - i,
    {
        let m: &MaterialEntry = &materials[i];
        if !m.law.implemented() {
            proof {
                lemma_first_unimplemented(materials@, (i + 1) as nat, n as nat);
            }
            return Err(MaterialError::Unimplemented { num_m: m.num_m, law: m.law });
        }
        i += 1;
    }
    let order: Vec<Ranked> = order_of(materials);
    i = 0;
    while i < n
        invariant
            i <= n,
            n == materials@.len(),
            n > 0,
            first_unimplemented(materials@, n as nat) is None,
            order@ == ranking(material_numbers(materials@)),
            order@.len() == n,
            forall|j: int|
                0 <= j < n ==> (#[trigger] order@[j]).place < n && order@[j].key
                    == materials@[order@[j].place as int].num_m,
            first_gap(order@, i as nat) is None,
        decreases n - i,
    {
        let num_m: usize = materials[order[i].place].num_m;
        if num_m != i + 1 {
            proof {
                lemma_first_gap(order@, (i + 1) as nat, n as nat);
            }
            return Err(MaterialError::NotContiguous { num_m, position: i + 1 });
        }
        i += 1;
    }
    let (lambda0, mu0): (Double, Double) = match reference_lambda_mu(materials) {
        Ok(medium) => medium,
        Err(cause) => {
            return Err(MaterialError::Reference { cause });
        },
    };
    let mut xml: String = "<?xml version=\"1.0\" encoding=\"UTF-8\"?>\n".to_owned();
    xml.append("<Materials>\n\n");
    xml.append("<!-- REFERENCE MATERIAL (FFT scheme convergence only, not a real material) -->\n");
    xml.append("<Reference_Material Lambda0=\"");
    xml.append(write_number(show, lambda0).as_str());
    xml.append("\" Mu0=\"");
    xml.append(write_number(show, mu0).as_str());
    xml.append("\" />\n\n");
    let mut blocks: String = String::new();
    i = 0;
    while i < n
        invariant
            writes(*show),
            i <= n,
            n == materials@.len(),
            n > 0,
            first_unimplemented(materials@, n as nat) is None,
            first_gap(order@, n as nat) is None,
            reference_medium(materials@) is Ok,
            order@ == ranking(material_numbers(materials@)),
            order@.len() == n,
            forall|j: int| 0 <= j < n ==> (#[trigger] order@[j]).place < n,
            material_blocks(materials@, order@, i as nat, writer(*show)) is Ok,
            material_blocks(materials@, order@, i as nat, writer(*show))->Ok_0 == blocks@,
        decreases n - i,
    {
        let m: &MaterialEntry = &materials[order[i].place];
        match write_material(m, show) {
            Ok(text) => {
                blocks.append(text.as_str());
            },
            Err(cause) => {
                proof {
                    lemma_material_blocks(
                        materials@,
                        order@,
                        (i + 1) as nat,
                        n as nat,
                        writer(*show),
                    );
                }
                return Err(MaterialError::InMaterial { num_m: m.num_m, cause });
            },
        }
        i += 1;
    }
    xml.append(blocks.as_str());
    xml.append("</Materials>\n");
    Ok(xml)
}

/// Whether a material's law can be used and its coefficients are entered as the law needs them.
pub open spec fn is_usable(m: MaterialEntry) -> bool {
    let n = m.num_zones as nat;
    match m.law {
        LawKind::ElasticIsotropic => {
            &&& m.isotropic.e@.resolved(n) is Some
            &&& m.isotropic.nu@.resolved(n) is Some
            &&& forall|z: int|
                0 <= z < n ==> unphysical(
                    #[trigger] m.isotropic.e@.resolved(n)->0[z],
                    m.isotropic.nu@.resolved(n)->0[z],
                ) is None
        },
        LawKind::ElasticOrthotropic => {
            &&& forall|i: int|
                0 <= i < 9 ==> (#[trigger] m.orthotropic.stiffness()[i]).resolved(n) is Some
            &&& m.orthotropic.e1@.resolved(n) is Some
            &&& m.orthotropic.e2@.resolved(n) is Some
        },
        _ => false,
    }
}

/// Whether the materials are numbered one, two and so on, in any order.
pub open spec fn numbered_from_one(materials: Seq<MaterialEntry>) -> bool {
    &&& forall|i: int|
        0 <= i < materials.len() ==> 1 <= (#[trigger] materials[i]).num_m <= materials.len()
    &&& forall|i: int, j: int|
        0 <= i < j < materials.len() ==> (#[trigger] materials[i]).num_m != (
        #[trigger] materials[j]).num_m
}

proof fn lemma_physical(es: Seq<Double>, nus: Seq<Double>, n: nat)
    ensures
        first_unphysical(es, nus, n) is None <==> forall|z: int|
            0 <= z < n ==> unphysical(#[trigger] es[z], nus[z]) is None,
    decreases n,
{
    if n > 0 {
        lemma_physical(es, nus, (n - 1) as nat);
        if first_unphysical(es, nus, n) is Some && first_unphysical(es, nus, (n - 1) as nat) is None {
            assert(unphysical(es[n - 1], nus[n - 1]) is Some);
        }
    }
}

proof fn lemma_stiffness_ok(
    c: OrthotropicCoeffs,
    n: nat,
    k: nat,
    show: spec_fn(Double) -> Seq<char>,
)
    ensures
        stiffness_text(c, n, k, show) is Ok <==> forall|i: int|
            0 <= i < k ==> (#[trigger] c.stiffness()[i]).resolved(n) is Some,
    decreases k,
{
    if k > 0 {
        lemma_stiffness_ok(c, n, (k - 1) as nat, show);
        if c.stiffness()[k - 1].resolved(n) is None {
        } else {
            assert forall|i: int| 0 <= i < k && stiffness_text(c, n, (k - 1) as nat, show) is Ok
                implies (#[trigger] c.stiffness()[i]).resolved(n) is Some by {}
        }
    }
}

proof fn lemma_usable(m: MaterialEntry, show: spec_fn(Double) -> Seq<char>)
    requires
        m.law.is_implemented(),
    ensures
        is_usable(m) <==> m.contribution() is Ok && material_text(m, show) is Ok,
        is_usable(m) ==> material_text(m, show) is Ok,
{
    let n = m.num_zones as nat;
    if m.law == LawKind::ElasticIsotropic {
        if m.isotropic.e@.resolved(n) is Some && m.isotropic.nu@.resolved(n) is Some {
            lemma_physical(m.isotropic.e@.resolved(n)->0, m.isotropic.nu@.resolved(n)->0, n);
        }
    } else {
        let c = m.orthotropic;
        lemma_stiffness_ok(c, n, 9, show);
        if forall|i: int| 0 <= i < 9 ==> (#[trigger] c.stiffness()[i]).resolved(n) is Some {
            assert(c.stiffness()[1].resolved(n) is Some);
            assert(c.stiffness()[2].resolved(n) is Some);
            assert(c.stiffness()[4].resolved(n) is Some);
            assert(c.stiffness()[6].resolved(n) is Some);
            assert(c.stiffness()[7].resolved(n) is Some);
            assert(c.stiffness()[8].resolved(n) is Some);
        }
    }
}

pub proof fn lemma_implemented(materials: Seq<MaterialEntry>, k: nat)
    ensures
        first_unimplemented(materials, k) is None <==> forall|i: int|
            0 <= i < k ==> (#[trigger] materials[i]).law.is_implemented(),
    decreases k,
{
    if k > 0 {
        lemma_implemented(materials, (k - 1) as nat);
        if !materials[k - 1].law.is_implemented() {
            assert(first_unimplemented(materials, k) is Some);
        }
    }
}

pub proof fn lemma_no_gap(order: Seq<Ranked>, k: nat)
    ensures
        first_gap(order, k) is None <==> forall|i: int|
            0 <= i < k ==> (#[trigger] order[i]).key == i + 1,
    decreases k,
{
    if k > 0 {
        lemma_no_gap(order, (k - 1) as nat);
        if order[k - 1].key != k {
            assert(first_gap(order, k) is Some);
        }
    }
}

pub proof fn lemma_contributions_ok(materials: Seq<MaterialEntry>, k: nat)
    ensures
        contributions(materials, k) is Ok <==> forall|i: int|
            0 <= i < k ==> (#[trigger] materials[i]).contribution() is Ok,
    decreases k,
{
    if k > 0 {
        lemma_contributions_ok(materials, (k - 1) as nat);
        if materials[k - 1].contribution() is Err {
            assert(contributions(materials, k) is Err);
        }
    }
}

pub proof fn lemma_blocks_ok(
    materials: Seq<MaterialEntry>,
    order: Seq<Ranked>,
    k: nat,
    show: spec_fn(Double) -> Seq<char>,
)
    ensures
        material_blocks(materials, order, k, show) is Ok <==> forall|i: int|
            0 <= i < k ==> material_text(
                materials[(#[trigger] order[i]).place as int],
                show,
            ) is Ok,
    decreases k,
{
    if k > 0 {
        lemma_blocks_ok(materials, order, (k - 1) as nat, show);
        if material_text(materials[order[k - 1].place as int], show) is Err {
            assert(material_blocks(materials, order, k, show) is Err);
        }
    }
}

/// Distinct numbers between one and their count are, when sorted, one, two and so on.
proof fn lemma_sorted_numbers(order: Seq<Ranked>, i: int)
    requires
        sorted_by(order, in_order()),
        forall|a: int, b: int|
            0 <= a < b < order.len() ==> (#[trigger] order[a]).key != (#[trigger] order[b]).key,
        forall|a: int| 0 <= a < order.len() ==> 1 <= (#[trigger] order[a]).key <= order.len(),
        0 <= i < order.len(),
    ensures
        order[i].key == i + 1,
{
    lemma_at_least(order, i);
    lemma_at_most(order, i);
}

proof fn lemma_at_least(order: Seq<Ranked>, i: int)
    requires
        sorted_by(order, in_order()),
        forall|a: int, b: int|
            0 <= a < b < order.len() ==> (#[trigger] order[a]).key != (#[trigger] order[b]).key,
        forall|a: int| 0 <= a < order.len() ==> 1 <= (#[trigger] order[a]).key,
        0 <= i < order.len(),
    ensures
        order[i].key >= i + 1,
    decreases i,
{
    if i > 0 {
        lemma_at_least(order, i - 1);
        assert(in_order()(order[i - 1], order[i]));
    }
}

proof fn lemma_at_most(order: Seq<Ranked>, i: int)
    requires
        sorted_by(order, in_order()),
        forall|a: int, b: int|
            0 <= a < b < order.len() ==> (#[trigger] order[a]).key != (#[trigger] order[b]).key,
        forall|a: int| 0 <= a < order.len() ==> (#[trigger] order[a]).key <= order.len(),
        0 <= i < order.len(),
    ensures
        order[i].key <= i + 1,
    decreases order.len() - i,
{
    if i < order.len() - 1 {
        lemma_at_most(order, i + 1);
        assert(in_order()(order[i], order[i + 1]));
    }
}

pub proof fn lemma_numbered(materials: Seq<MaterialEntry>)
    requires
        materials.len() <= usize::MAX,
    ensures
        numbered_from_one(materials) <==> first_gap(
            ranking(material_numbers(materials)),
            materials.len(),
        ) is None,
{
    let keys = material_numbers(materials);
    let order = ranking(keys);
    let n = materials.len();
    ranking_is_an_order(keys);
    lemma_no_gap(order, n);
    if numbered_from_one(materials) {
        assert forall|a: int, b: int| 0 <= a < b < n implies (#[trigger] order[a]).key != (
        #[trigger] order[b]).key by {
            let p = order[a].place as int;
            let q = order[b].place as int;
            assert(order[a].key == materials[p].num_m);
            assert(order[b].key == materials[q].num_m);
            assert(order[a] != order[b]);
            if p == q {
                assert(order[a] == order[b]);
            } else if p < q {
                assert(materials[p].num_m != materials[q].num_m);
            } else {
                assert(materials[q].num_m != materials[p].num_m);
            }
        }
        assert forall|a: int| 0 <= a < n implies 1 <= (#[trigger] order[a]).key <= n by {
            assert(order[a].key == materials[order[a].place as int].num_m);
        }
        assert forall|i: int| 0 <= i < n implies (#[trigger] order[i]).key == i + 1 by {
            lemma_sorted_numbers(order, i);
        }
    }
    if first_gap(order, n) is None {
        assert forall|p: int| 0 <= p < n implies 1 <= (#[trigger] materials[p]).num_m <= n by {
            let e = Ranked { key: keys[p], place: p as usize };
            assert(order.contains(e));
            let i = choose|i: int| 0 <= i < order.len() && order[i] == e;
            assert(order[i].key == i + 1);
        }
        assert forall|p: int, q: int| 0 <= p < q < n implies (#[trigger] materials[p]).num_m != (
        #[trigger] materials[q]).num_m by {
            let e = Ranked { key: keys[p], place: p as usize };
            let f = Ranked { key: keys[q], place: q as usize };
            assert(order.contains(e));
            assert(order.contains(f));
            let i = choose|i: int| 0 <= i < order.len() && order[i] == e;
            let j = choose|j: int| 0 <= j < order.len() && order[j] == f;
            assert(order[i].key == i + 1);
            assert(order[j].key == j + 1);
        }
    }
}

/// A material file can be written exactly where there are materials, each of them usable, and
/// their numbers are one, two and so on.
pub proof fn mat_xml_succeeds(materials: Seq<MaterialEntry>, show: spec_fn(Double) -> Seq<char>)
    requires
        materials.len() <= usize::MAX,
    ensures
        mat_xml(materials, show) is Ok <==> {
            &&& materials.len() > 0
            &&& forall|i: int| 0 <= i < materials.len() ==> is_usable(#[trigger] materials[i])
            &&& numbered_from_one(materials)
        },
{
    let n = materials.len();
    let order = ranking(material_numbers(materials));
    lemma_implemented(materials, n);
    lemma_numbered(materials);
    lemma_contributions_ok(materials, n);
    lemma_blocks_ok(materials, order, n, show);
    ranking_is_an_order(material_numbers(materials));
    assert forall|i: int|
        0 <= i < n && (#[trigger] materials[i]).law.is_implemented() implies is_usable(
        materials[i],
    ) == (materials[i].contribution() is Ok && material_text(materials[i], show) is Ok) by {
        lemma_usable(materials[i], show);
    }
    if mat_xml(materials, show) is Ok {
        assert forall|p: int| 0 <= p < n implies is_usable(#[trigger] materials[p]) by {
            let e = Ranked { key: material_numbers(materials)[p], place: p as usize };
            assert(order.contains(e));
            let i = choose|i: int| 0 <= i < order.len() && order[i] == e;
            assert(material_text(materials[order[i].place as int], show) is Ok);
        }
    }
    if n > 0 && numbered_from_one(materials) && forall|i: int|
        0 <= i < n ==> is_usable(#[trigger] materials[i]) {
        assert forall|i: int| 0 <= i < n implies (#[trigger] materials[i]).contribution() is Ok by {
            lemma_usable(materials[i], show);
        }
        assert forall|i: int| 0 <= i < n implies material_text(
            materials[(#[trigger] order[i]).place as int],
            show,
        ) is Ok by {
            lemma_usable(materials[order[i].place as int], show);
        }
    }
}

/// In a material file the materials stand in the order of their numbers, each once.
#[verifier::spinoff_prover]
#[verifier::rlimit(40)]
pub proof fn materials_stand_in_order(
    materials: Seq<MaterialEntry>,
    show: spec_fn(Double) -> Seq<char>,
    i: int,
)
    requires
        materials.len() <= usize::MAX,
        mat_xml(materials, show) is Ok,
        0 <= i < materials.len(),
    ensures
        ({
            let order = ranking(material_numbers(materials));
            let m = materials[order[i].place as int];
            &&& order.len() == materials.len()
            &&& m.num_m == i + 1
            &&& forall|p: int|
                0 <= p < materials.len() && (#[trigger] materials[p]).num_m == i + 1
                    ==> materials[p] == m
            &&& material_blocks(materials, order, (i + 1) as nat, show)
                == Ok::<Seq<char>, MaterialError>(
                material_blocks(materials, order, i as nat, show)->Ok_0 + material_text(
                    m,
                    show,
                )->Ok_0,
            )
        }),
{
    let n = materials.len();
    let order = ranking(material_numbers(materials));
    ranking_is_an_order(material_numbers(materials));
    lemma_numbered(materials);
    lemma_no_gap(order, n);
    lemma_blocks_ok(materials, order, n, show);
    lemma_blocks_ok(materials, order, (i + 1) as nat, show);
    lemma_blocks_ok(materials, order, i as nat, show);
    let place = order[i].place as int;
    assert(order[i].key == materials[place].num_m);
    assert forall|p: int| 0 <= p < n && (#[trigger] materials[p]).num_m == i + 1 implies materials[p]
        == materials[place] by {
        if p < place {
            assert(materials[p].num_m != materials[place].num_m);
        } else if place < p {
            assert(materials[place].num_m != materials[p].num_m);
        }
    }
}

} // verus!
