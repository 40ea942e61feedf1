//! What the material file says of the materials that were entered.
use crate::arithmetic::{integer, quotient, sum};
use crate::double::{lemma_order, Double};
use crate::formula::Arithmetic;
use crate::preproc::material_xml::{
    axis_text, coeff_text, components, derived_text, generate_mat_xml, is_usable, mat_xml,
    mat_xml_succeeds, material_blocks, material_numbers, material_text, materials_stand_in_order,
    stiffness_label, stiffness_text, zone_block, zone_lines, MaterialError,
};
use crate::preproc::materials::{
    contributions, firsts, greatest, lambda_of, least, least_and_greatest_bound, mu_of,
    reference_lambda_mu, seconds, CoefficientError, LawKind, MaterialEntry, OrthotropicCoeffs,
};
use crate::preproc::material_order::{infinity, lemma_bounds_are_values, minus_infinity};
use crate::preproc::zones::{ZoneValue, ZoneVec3, Zoned};
use crate::sorting::{ranking, ranking_is_an_order, Ranked};
use crate::text::decimal;
use crate::writing::{shown, writer, writes};
use vstd::prelude::*;

verus! {

/// A coefficient that is the same all over a material.
pub open spec fn one_value(index: nat, comment: Seq<char>, value: Seq<char>) -> Seq<char> {
    "    <Coeff Index=\""@ + decimal(index) + "\" Type=\"Constant\" Value=\""@ + value
        + "\"/> <!-- "@ + comment + " -->\n"@
}

/// A coefficient that is given zone by zone, each value under the number of its zone.
pub open spec fn zone_values(index: nat, comment: Seq<char>, values: Seq<Seq<char>>) -> Seq<char> {
    "    <Coeff Index=\""@ + decimal(index) + "\" Type=\"Constant_Zone\"> <!-- "@ + comment
        + " -->\n"@ + Seq::new(
        values.len(),
        |z: int|
            "        <Zone numZ=\""@ + decimal((z + 1) as nat) + "\" Value=\""@ + values[z]
                + "\"/>\n"@,
    ).flatten() + "    </Coeff>\n"@
}

/// A coefficient as it was entered.
pub open spec fn entered_value(
    index: nat,
    comment: Seq<char>,
    value: ZoneValue,
    show: spec_fn(Double) -> Seq<char>,
) -> Seq<char> {
    match value {
        Zoned::Constant(v) => one_value(index, comment, show(v)),
        Zoned::PerZone(list) => zone_values(
            index,
            comment,
            Seq::new(list@.len(), |z: int| show(list@[z])),
        ),
    }
}

/// A component of a vector as it was entered.
pub open spec fn entered_component(
    index: nat,
    comment: Seq<char>,
    value: ZoneVec3,
    axis: int,
    show: spec_fn(Double) -> Seq<char>,
) -> Seq<char> {
    match value {
        Zoned::Constant(v) => one_value(index, comment, show(v[axis])),
        Zoned::PerZone(list) => zone_values(
            index,
            comment,
            Seq::new(list@.len(), |z: int| show(list@[z][axis])),
        ),
    }
}

proof fn lemma_zone_lines(values: Seq<Double>, k: nat, show: spec_fn(Double) -> Seq<char>)
    requires
        k <= values.len(),
    ensures
        zone_lines(values, k, show) == Seq::new(
            k,
            |z: int|
                "        <Zone numZ=\""@ + decimal((z + 1) as nat) + "\" Value=\""@ + show(
                    values[z],
                )
                    + "\"/>\n"@,
        ).flatten(),
    decreases k,
{
    let line = |z: int|
        "        <Zone numZ=\""@ + decimal((z + 1) as nat) + "\" Value=\""@ + show(values[z])
            + "\"/>\n"@;
    let all = Seq::new(k, line);
    if k == 0 {
        assert(all =~= Seq::<Seq<char>>::empty());
    } else {
        let before = Seq::new((k - 1) as nat, line);
        lemma_zone_lines(values, (k - 1) as nat, show);
        assert(all.drop_last() =~= before);
        assert(all =~= before.push(line(k - 1)));
        before.lemma_flatten_push(line(k - 1));
        assert(Seq::new(
            (k - 1) as nat,
            |z: int|
                "        <Zone numZ=\""@ + decimal((z + 1) as nat) + "\" Value=\""@ + show(
                    values[z],
                )
                    + "\"/>\n"@,
        ) =~= before);
    }
    assert(Seq::new(
        k,
        |z: int|
            "        <Zone numZ=\""@ + decimal((z + 1) as nat) + "\" Value=\""@ + show(values[z])
                + "\"/>\n"@,
    ) =~= all);
}

proof fn lemma_zone_block(
    index: nat,
    values: Seq<Double>,
    comment: Seq<char>,
    show: spec_fn(Double) -> Seq<char>,
    texts: Seq<Seq<char>>,
)
    requires
        texts.len() == values.len(),
        forall|z: int| 0 <= z < texts.len() ==> #[trigger] texts[z] == show(values[z]),
    ensures
        zone_block(index, values, comment, show) == zone_values(index, comment, texts),
{
    lemma_zone_lines(values, values.len(), show);
    assert(Seq::new(
        values.len(),
        |z: int|
            "        <Zone numZ=\""@ + decimal((z + 1) as nat) + "\" Value=\""@ + show(values[z])
                + "\"/>\n"@,
    ) =~= Seq::new(
        texts.len(),
        |z: int|
            "        <Zone numZ=\""@ + decimal((z + 1) as nat) + "\" Value=\""@ + texts[z]
                + "\"/>\n"@,
    ));
}

proof fn lemma_entered_value(
    index: nat,
    comment: Seq<char>,
    value: ZoneValue,
    show: spec_fn(Double) -> Seq<char>,
)
    ensures
        coeff_text(index, value@, comment, show) == entered_value(index, comment, value, show),
{
    match value {
        Zoned::Constant(v) => {},
        Zoned::PerZone(list) => {
            lemma_zone_block(
                index,
                list@,
                comment,
                show,
                Seq::new(list@.len(), |z: int| show(list@[z])),
            );
        },
    }
}

proof fn lemma_entered_component(
    start: nat,
    label: Seq<char>,
    value: ZoneVec3,
    axis: nat,
    show: spec_fn(Double) -> Seq<char>,
)
    requires
        axis < 3,
    ensures
        axis_text(start, value@, label, axis, show) == entered_component(
            start + axis,
            label + "["@ + decimal(axis) + "]"@,
            value,
            axis as int,
            show,
        ),
{
    match value {
        Zoned::Constant(v) => {},
        Zoned::PerZone(list) => {
            lemma_zone_block(
                start + axis,
                components(list@, axis as int),
                label + "["@ + decimal(axis) + "]"@,
                show,
                Seq::new(list@.len(), |z: int| show(list@[z][axis as int])),
            );
        },
    }
}

/// What the file says of an orthotropic material: its number, and the coefficients that were
/// entered for it, the nine of the stiffness under the indices one to nine, and the components of
/// the two vectors under the next six.
pub open spec fn orthotropic_part(m: MaterialEntry, show: spec_fn(Double) -> Seq<char>) -> Seq<
    char,
> {
    "<!-- MATERIAL "@ + decimal(m.num_m as nat) + " -->\n"@ + (
    "<Material numM=\""@ + decimal(m.num_m as nat) + "\" Lib=\"\" Law=\""@ + "elasaniso"@
        + "\">\n"@ + (entered_value(1, "C11"@, m.orthotropic.c11, show) + entered_value(
        2,
        "C12"@,
        m.orthotropic.c12,
        show,
    ) + entered_value(3, "C13"@, m.orthotropic.c13, show) + entered_value(
        4,
        "C22"@,
        m.orthotropic.c22,
        show,
    ) + entered_value(5, "C23"@, m.orthotropic.c23, show) + entered_value(
        6,
        "C33"@,
        m.orthotropic.c33,
        show,
    ) + entered_value(7, "C44"@, m.orthotropic.c44, show) + entered_value(
        8,
        "C55"@,
        m.orthotropic.c55,
        show,
    ) + entered_value(9, "C66"@, m.orthotropic.c66, show)) + (entered_component(
        10,
        "e1"@ + "["@ + decimal(0) + "]"@,
        m.orthotropic.e1,
        0,
        show,
    ) + entered_component(
        11,
        "e1"@ + "["@ + decimal(1) + "]"@,
        m.orthotropic.e1,
        1,
        show,
    ) + entered_component(
        12,
        "e1"@ + "["@ + decimal(2) + "]"@,
        m.orthotropic.e1,
        2,
        show,
    )) + (entered_component(
        13,
        "e2"@ + "["@ + decimal(0) + "]"@,
        m.orthotropic.e2,
        0,
        show,
    ) + entered_component(
        14,
        "e2"@ + "["@ + decimal(1) + "]"@,
        m.orthotropic.e2,
        1,
        show,
    ) + entered_component(
        15,
        "e2"@ + "["@ + decimal(2) + "]"@,
        m.orthotropic.e2,
        2,
        show,
    )) + "</Material>\n\n"@)
}

/// The value of a coefficient in a zone, counted from zero.
pub open spec fn value_in_zone(value: ZoneValue, z: int) -> Double {
    match value {
        Zoned::Constant(v) => v,
        Zoned::PerZone(list) => list@[z],
    }
}

/// A coefficient that is computed in each of `n` zones.
pub open spec fn computed_value(
    index: nat,
    comment: Seq<char>,
    n: nat,
    value: spec_fn(int) -> Seq<char>,
) -> Seq<char> {
    if n == 1 {
        one_value(index, comment, value(0))
    } else {
        zone_values(index, comment, Seq::new(n, |z: int| value(z)))
    }
}

/// What the file says of an isotropic material: its number, and in each zone the Lamé coefficients
/// of the constants that were entered there.
pub open spec fn isotropic_part(m: MaterialEntry, show: spec_fn(Double) -> Seq<char>) -> Seq<char> {
    "<!-- MATERIAL "@ + decimal(m.num_m as nat) + " -->\n"@ + ("<Material numM=\""@ + decimal(
        m.num_m as nat,
    ) + "\" Lib=\"\" Law=\""@ + "elasiso"@ + "\">\n"@ + computed_value(
        1,
        "lambda"@,
        m.num_zones as nat,
        |z: int|
            show(
                lambda_of(
                    value_in_zone(m.isotropic.e, z),
                    value_in_zone(m.isotropic.nu, z),
                ),
            ),
    ) + computed_value(
        2,
        "mu"@,
        m.num_zones as nat,
        |z: int|
            show(
                mu_of(value_in_zone(m.isotropic.e, z), value_in_zone(m.isotropic.nu, z)),
            ),
    ) + "</Material>\n\n"@)
}

proof fn lemma_computed_value(
    index: nat,
    comment: Seq<char>,
    values: Seq<Double>,
    show: spec_fn(Double) -> Seq<char>,
    value: spec_fn(int) -> Seq<char>,
)
    requires
        forall|z: int| 0 <= z < values.len() ==> #[trigger] value(z) == show(values[z]),
    ensures
        derived_text(index, values, comment, show) == computed_value(
            index,
            comment,
            values.len(),
            value,
        ),
{
    if values.len() == 1 {
        assert(value(0) == show(values[0]));
    } else {
        lemma_zone_block(index, values, comment, show, Seq::new(values.len(), |z: int| value(z)));
    }
}

proof fn lemma_isotropic(m: MaterialEntry, show: spec_fn(Double) -> Seq<char>)
    requires
        m.law == LawKind::ElasticIsotropic,
        material_text(m, show) is Ok,
    ensures
        material_text(m, show)->Ok_0 == isotropic_part(m, show),
{
    let n = m.num_zones as nat;
    let pairs = m.isotropic.lame(n)->Ok_0;
    assert forall|z: int| 0 <= z < n implies m.isotropic.e@.resolved(n)->0[z] == value_in_zone(
        m.isotropic.e,
        z,
    ) && m.isotropic.nu@.resolved(n)->0[z] == value_in_zone(m.isotropic.nu, z) && (
    #[trigger] pairs[z]) == (
        lambda_of(value_in_zone(m.isotropic.e, z), value_in_zone(m.isotropic.nu, z)),
        mu_of(value_in_zone(m.isotropic.e, z), value_in_zone(m.isotropic.nu, z)),
    ) by {}
    assert forall|z: int| 0 <= z < n implies #[trigger] firsts(pairs)[z] == pairs[z].0 by {}
    assert forall|z: int| 0 <= z < n implies #[trigger] seconds(pairs)[z] == pairs[z].1 by {}
    lemma_computed_value(
        1,
        "lambda"@,
        firsts(pairs),
        show,
        |z: int|
            show(
                lambda_of(
                    value_in_zone(m.isotropic.e, z),
                    value_in_zone(m.isotropic.nu, z),
                ),
            ),
    );
    lemma_computed_value(
        2,
        "mu"@,
        seconds(pairs),
        show,
        |z: int|
            show(
                mu_of(value_in_zone(m.isotropic.e, z), value_in_zone(m.isotropic.nu, z)),
            ),
    );
}

proof fn lemma_orthotropic(m: MaterialEntry, show: spec_fn(Double) -> Seq<char>)
    requires
        m.law == LawKind::ElasticOrthotropic,
        material_text(m, show) is Ok,
    ensures
        material_text(m, show)->Ok_0 == orthotropic_part(m, show),
{
    let c = m.orthotropic;
    lemma_entered_value(1, "C11"@, c.c11, show);
    lemma_entered_value(2, "C12"@, c.c12, show);
    lemma_entered_value(3, "C13"@, c.c13, show);
    lemma_entered_value(4, "C22"@, c.c22, show);
    lemma_entered_value(5, "C23"@, c.c23, show);
    lemma_entered_value(6, "C33"@, c.c33, show);
    lemma_entered_value(7, "C44"@, c.c44, show);
    lemma_entered_value(8, "C55"@, c.c55, show);
    lemma_entered_value(9, "C66"@, c.c66, show);
    lemma_entered_component(10, "e1"@, c.e1, 0, show);
    lemma_entered_component(10, "e1"@, c.e1, 1, show);
    lemma_entered_component(10, "e1"@, c.e1, 2, show);
    lemma_entered_component(13, "e2"@, c.e2, 0, show);
    lemma_entered_component(13, "e2"@, c.e2, 1, show);
    lemma_entered_component(13, "e2"@, c.e2, 2, show);
    lemma_stiffness(c, m.num_zones as nat, show);
}

proof fn lemma_stiffness(c: OrthotropicCoeffs, n: nat, show: spec_fn(Double) -> Seq<char>)
    requires
        stiffness_text(c, n, 9, show) is Ok,
    ensures
        stiffness_text(c, n, 9, show)->Ok_0 == coeff_text(1, c.c11@, "C11"@, show) + coeff_text(
            2,
            c.c12@,
            "C12"@,
            show,
        ) + coeff_text(3, c.c13@, "C13"@, show) + coeff_text(4, c.c22@, "C22"@, show) + coeff_text(
            5,
            c.c23@,
            "C23"@,
            show,
        ) + coeff_text(6, c.c33@, "C33"@, show) + coeff_text(7, c.c44@, "C44"@, show) + coeff_text(
            8,
            c.c55@,
            "C55"@,
            show,
        ) + coeff_text(9, c.c66@, "C66"@, show),
{
    lemma_stiffness_step(c, n, 9, 9, show);
    lemma_stiffness_step(c, n, 8, 9, show);
    lemma_stiffness_step(c, n, 7, 9, show);
    lemma_stiffness_step(c, n, 6, 9, show);
    lemma_stiffness_step(c, n, 5, 9, show);
    lemma_stiffness_step(c, n, 4, 9, show);
    lemma_stiffness_step(c, n, 3, 9, show);
    lemma_stiffness_step(c, n, 2, 9, show);
    lemma_stiffness_step(c, n, 1, 9, show);
    let e = Seq::<char>::empty();
    let first = coeff_text(1, c.c11@, "C11"@, show);
    assert(stiffness_text(c, n, 0, show) == Ok::<Seq<char>, CoefficientError>(e));
    assert(e + first =~= first);
}

proof fn lemma_stiffness_step(
    c: OrthotropicCoeffs,
    n: nat,
    k: nat,
    m: nat,
    show: spec_fn(Double) -> Seq<char>,
)
    requires
        0 < k <= m <= 9,
        stiffness_text(c, n, m, show) is Ok,
    ensures
        stiffness_text(c, n, k, show) is Ok,
        stiffness_text(c, n, (k - 1) as nat, show) is Ok,
        stiffness_text(c, n, k, show)->Ok_0 == stiffness_text(c, n, (k - 1) as nat, show)->Ok_0
            + coeff_text(k, c.stiffness()[k - 1], stiffness_label(k - 1).text(), show),
    decreases m,
{
    if k < m {
        lemma_stiffness_step(c, n, k, (m - 1) as nat, show);
    }
}

proof fn lemma_blocks(
    materials: Seq<MaterialEntry>,
    order: Seq<Ranked>,
    k: nat,
    show: spec_fn(Double) -> Seq<char>,
)
    requires
        material_blocks(materials, order, k, show) is Ok,
    ensures
        material_blocks(materials, order, k, show)->Ok_0 == Seq::new(
            k,
            |i: int| material_text(materials[order[i].place as int], show)->Ok_0,
        ).flatten(),
        forall|i: int|
            0 <= i < k ==> material_text(
                materials[(#[trigger] order[i]).place as int],
                show,
            ) is Ok,
    decreases k,
{
    let text = |i: int| material_text(materials[order[i].place as int], show)->Ok_0;
    let all = Seq::new(k, text);
    if k == 0 {
        assert(all =~= Seq::<Seq<char>>::empty());
    } else {
        let before = Seq::new((k - 1) as nat, text);
        lemma_blocks(materials, order, (k - 1) as nat, show);
        assert(all =~= before.push(text(k - 1)));
        before.lemma_flatten_push(text(k - 1));
    }
}

/// The material file is made of the reference medium, and of what was entered for each material,
/// in the order of the materials' numbers: the isotropic ones with the Lamé coefficients of their
/// constants, the orthotropic ones with their own coefficients, each under its index and name.
pub proof fn file_tells_the_materials<S: Fn(Double) -> String>(
    materials: Vec<MaterialEntry>,
    show: S,
    r: Result<String, MaterialError>,
    medium: Result<(Double, Double), CoefficientError>,
)
    requires
        writes(show),
        call_ensures(generate_mat_xml::<S>, (&materials, &show), r),
        r is Ok,
        call_ensures(reference_lambda_mu, (&materials,), medium),
    ensures
        medium is Ok,
        exists|parts: Seq<Seq<char>>| #[trigger] parts.len() == materials@.len() && r->Ok_0@
            == "<?xml version=\"1.0\" encoding=\"UTF-8\"?>\n"@ + "<Materials>\n\n"@
            + "<!-- REFERENCE MATERIAL (FFT scheme convergence only, not a real material) -->\n"@
            + "<Reference_Material Lambda0=\""@ + shown(show, medium->Ok_0.0) + "\" Mu0=\""@
            + shown(show, medium->Ok_0.1) + "\" />\n\n"@ + parts.flatten() + "</Materials>\n"@
            && forall|p: int|
            0 <= p < materials@.len() ==> {
                let m = #[trigger] materials@[p];
                &&& 1 <= m.num_m <= materials@.len()
                &&& m.law == LawKind::ElasticIsotropic || m.law == LawKind::ElasticOrthotropic
                &&& parts[m.num_m - 1] == if m.law == LawKind::ElasticIsotropic {
                    isotropic_part(m, writer(show))
                } else {
                    orthotropic_part(m, writer(show))
                }
            },
{
    let w = writer(show);
    let all = materials@;
    let n = all.len();
    let len = materials.len();
    assert(n <= usize::MAX);
    let order = ranking(material_numbers(all));
    assert(mat_xml(all, w) is Ok);
    mat_xml_succeeds(all, w);
    lemma_blocks(all, order, n, w);
    ranking_is_an_order(material_numbers(all));
    let parts = Seq::new(n, |i: int| material_text(all[order[i].place as int], w)->Ok_0);
    assert(parts.len() == n);
    assert forall|p: int| 0 <= p < n implies {
        let m = #[trigger] all[p];
        &&& 1 <= m.num_m <= n
        &&& m.law == LawKind::ElasticIsotropic || m.law == LawKind::ElasticOrthotropic
        &&& parts[m.num_m - 1] == if m.law == LawKind::ElasticIsotropic {
            isotropic_part(m, w)
        } else {
            orthotropic_part(m, w)
        }
    } by {
        let m = all[p];
        assert(is_usable(m));
        let i = m.num_m - 1;
        materials_stand_in_order(all, w, i);
        assert(all[order[i].place as int] == m);
        assert(material_text(all[order[i].place as int], w) is Ok);
        if m.law == LawKind::ElasticIsotropic {
            lemma_isotropic(m, w);
        } else {
            lemma_orthotropic(m, w);
        }
    }
}

/// What a material counts for in one of its zones: its Lamé coefficients there, or for an
/// orthotropic material the mean of its three coefficients off the diagonal, and that of its three
/// shear coefficients.
pub open spec fn counts_for(m: MaterialEntry, z: int) -> (Double, Double) {
    let c = m.orthotropic;
    if m.law == LawKind::ElasticIsotropic {
        (
            lambda_of(value_in_zone(m.isotropic.e, z), value_in_zone(m.isotropic.nu, z)),
            mu_of(value_in_zone(m.isotropic.e, z), value_in_zone(m.isotropic.nu, z)),
        )
    } else {
        (
            quotient(
                sum(sum(value_in_zone(c.c12, z), value_in_zone(c.c13, z)), value_in_zone(c.c23, z)),
                integer(3),
            ),
            quotient(
                sum(sum(value_in_zone(c.c44, z), value_in_zone(c.c55, z)), value_in_zone(c.c66, z)),
                integer(3),
            ),
        )
    }
}

proof fn lemma_contribution(m: MaterialEntry, z: int)
    requires
        m.law == LawKind::ElasticIsotropic || m.law == LawKind::ElasticOrthotropic,
        m.contribution() is Ok,
    ensures
        m.contribution()->Ok_0.len() == m.num_zones,
        0 <= z < m.num_zones ==> m.contribution()->Ok_0[z] == counts_for(m, z),
{
    assert(Double::natural(3) == integer(3));
}

/// What all materials count for holds exactly what each counts for in each of its zones.
proof fn lemma_contributions_of(materials: Seq<MaterialEntry>, k: nat, i: int)
    requires
        k <= materials.len(),
        contributions(materials, k) is Ok,
        forall|p: int|
            0 <= p < materials.len() ==> (#[trigger] materials[p]).law == LawKind::ElasticIsotropic
                || materials[p].law == LawKind::ElasticOrthotropic,
        0 <= i < contributions(materials, k)->Ok_0.len(),
    ensures
        exists|p: int, z: int|
            0 <= p < k && 0 <= z < materials[p].num_zones && contributions(materials, k)->Ok_0[i]
                == #[trigger] counts_for(materials[p], z),
    decreases k,
{
    let before = contributions(materials, (k - 1) as nat)->Ok_0;
    if i < before.len() {
        lemma_contributions_of(materials, (k - 1) as nat, i);
    } else {
        let z = i - before.len();
        lemma_contribution(materials[k - 1], z);
        assert(contributions(materials, k)->Ok_0[i] == counts_for(materials[k - 1], z));
    }
}

proof fn lemma_place_of_contribution(materials: Seq<MaterialEntry>, k: nat, p: int, z: int) -> (i:
    int)
    requires
        k <= materials.len(),
        contributions(materials, k) is Ok,
        0 <= p < k,
        materials[p].law == LawKind::ElasticIsotropic || materials[p].law
            == LawKind::ElasticOrthotropic,
        0 <= z < materials[p].num_zones,
    ensures
        0 <= i < contributions(materials, k)->Ok_0.len(),
        contributions(materials, k)->Ok_0[i] == counts_for(materials[p], z),
    decreases k,
{
    let before = contributions(materials, (k - 1) as nat)->Ok_0;
    if p < k - 1 {
        lemma_place_of_contribution(materials, (k - 1) as nat, p, z)
    } else {
        lemma_contribution(materials[p], z);
        before.len() + z
    }
}

/// Whether a number is counted for by some material in some zone.
pub open spec fn is_first_count(materials: Seq<MaterialEntry>, v: Double) -> bool {
    exists|p: int, z: int|
        0 <= p < materials.len() && 0 <= z < materials[p].num_zones && v == (#[trigger] counts_for(
            materials[p],
            z,
        )).0
}

pub open spec fn is_second_count(materials: Seq<MaterialEntry>, v: Double) -> bool {
    exists|p: int, z: int|
        0 <= p < materials.len() && 0 <= z < materials[p].num_zones && v == (#[trigger] counts_for(
            materials[p],
            z,
        )).1
}

/// The reference medium lies half way between extremes: each of its coefficients is half the sum of
/// two numbers that some materials count for, and no material counts for less than the one or more
/// than the other in any zone.
pub proof fn reference_lies_half_way(
    materials: Vec<MaterialEntry>,
    r: Result<(Double, Double), CoefficientError>,
)
    requires
        call_ensures(reference_lambda_mu, (&materials,), r),
        r is Ok,
        forall|p: int|
            0 <= p < materials@.len() ==> (#[trigger] materials@[p]).law
                == LawKind::ElasticIsotropic || materials@[p].law == LawKind::ElasticOrthotropic,
        // Some material counts for numbers.
        exists|p: int, z: int|
            0 <= p < materials@.len() && 0 <= z < materials@[p].num_zones && {
                let c = #[trigger] counts_for(materials@[p], z);
                c.0.is_finite() && c.1.is_finite()
            },
    ensures
        exists|low: Double, high: Double|
            is_first_count(materials@, low) && is_first_count(materials@, high) && r->Ok_0.0
                == quotient(#[trigger] sum(low, high), integer(2)) && forall|p: int, z: int|
                0 <= p < materials@.len() && 0 <= z < materials@[p].num_zones ==> {
                    let v = (#[trigger] counts_for(materials@[p], z)).0;
                    !v.is_below(low) && !high.is_below(v)
                },
        exists|low: Double, high: Double|
            is_second_count(materials@, low) && is_second_count(materials@, high) && r->Ok_0.1
                == quotient(#[trigger] sum(low, high), integer(2)) && forall|p: int, z: int|
                0 <= p < materials@.len() && 0 <= z < materials@[p].num_zones ==> {
                    let v = (#[trigger] counts_for(materials@[p], z)).1;
                    !v.is_below(low) && !high.is_below(v)
                },
{
    let all = materials@;
    let n = all.len();
    let pairs = contributions(all, n)->Ok_0;
    let (xs, ys) = (firsts(pairs), seconds(pairs));
    assert(Double::natural(2) == integer(2));
    let (p0, z0) = choose|p: int, z: int|
        0 <= p < all.len() && 0 <= z < all[p].num_zones && {
            let c = #[trigger] counts_for(all[p], z);
            c.0.is_finite() && c.1.is_finite()
        };
    let i0 = lemma_place_of_contribution(all, n, p0, z0);
    lemma_attained(xs, i0);
    lemma_attained(ys, i0);
    let (a, b) = (
        choose|a: int| 0 <= a < xs.len() && xs[a] == least(xs),
        choose|b: int| 0 <= b < xs.len() && xs[b] == greatest(xs),
    );
    let (c, d) = (
        choose|c: int| 0 <= c < ys.len() && ys[c] == least(ys),
        choose|d: int| 0 <= d < ys.len() && ys[d] == greatest(ys),
    );
    lemma_contributions_of(all, n, a);
    lemma_contributions_of(all, n, b);
    lemma_contributions_of(all, n, c);
    lemma_contributions_of(all, n, d);
    assert(is_first_count(all, least(xs)));
    assert(is_first_count(all, greatest(xs)));
    assert(is_second_count(all, least(ys)));
    assert(is_second_count(all, greatest(ys)));
    assert forall|p: int, z: int| 0 <= p < n && 0 <= z < all[p].num_zones implies {
        let v = #[trigger] counts_for(all[p], z);
        &&& !v.0.is_below(least(xs))
        &&& !greatest(xs).is_below(v.0)
        &&& !v.1.is_below(least(ys))
        &&& !greatest(ys).is_below(v.1)
    } by {
        let i = lemma_place_of_contribution(all, n, p, z);
        least_and_greatest_bound(xs, i);
        least_and_greatest_bound(ys, i);
        assert(xs[i] == pairs[i].0 && ys[i] == pairs[i].1);
    }
    assert(r->Ok_0.0 == quotient(sum(least(xs), greatest(xs)), integer(2)));
    assert(r->Ok_0.1 == quotient(sum(least(ys), greatest(ys)), integer(2)));
}

/// Where one of some values is finite, the least and the greatest are among them.
proof fn lemma_attained(values: Seq<Double>, i: int)
    requires
        0 <= i < values.len(),
        values[i].is_finite(),
    ensures
        exists|a: int| 0 <= a < values.len() && values[a] == least(values),
        exists|b: int| 0 <= b < values.len() && values[b] == greatest(values),
{
    lemma_bounds_are_values(values);
    least_and_greatest_bound(values, i);
    let v = values[i];
    if least(values) == infinity() {
        lemma_order(v, infinity());
    }
    if greatest(values) == minus_infinity() {
        lemma_order(minus_infinity(), v);
    }
    assert(values.contains(least(values)));
    assert(values.contains(greatest(values)));
}

} // verus!
