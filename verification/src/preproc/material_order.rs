//! The material file does not depend on the order in which the materials are listed.
use crate::arithmetic::sum;
use crate::double::{lemma_grid_fields, lemma_order, Double, WIDE, WIDE_SIGN};
use crate::preproc::material_xml::{
    is_usable, lemma_contributions_ok, lemma_no_gap, lemma_numbered, mat_xml, mat_xml_succeeds,
    material_blocks, material_numbers, materials_stand_in_order, numbered_from_one,
};
use crate::preproc::materials::{
    contributions, firsts, greatest, least, least_and_greatest_bound, lemma_bounds_are_numbers,
    middle, reference_medium, seconds, MaterialEntry,
};
use crate::sorting::{ranking, ranking_is_an_order};
use vstd::multiset::*;
use vstd::prelude::*;
use vstd::seq_lib::*;

verus! {

/// Whether two lists hold the same values.
pub open spec fn same_values<T>(a: Seq<T>, b: Seq<T>) -> bool {
    forall|v: T| #[trigger] a.contains(v) <==> b.contains(v)
}

pub open spec fn infinity() -> Double {
    Double { bits: 0x7ff0_0000_0000_0000 }
}

pub open spec fn minus_infinity() -> Double {
    Double { bits: 0xfff0_0000_0000_0000 }
}

pub open spec fn minus_zero() -> Double {
    Double { bits: WIDE_SIGN }
}

/// The bounds of a list are among its values, or infinite.
pub proof fn lemma_bounds_are_values(values: Seq<Double>)
    ensures
        least(values) == infinity() || values.contains(least(values)),
        greatest(values) == minus_infinity() || values.contains(greatest(values)),
    decreases values.len(),
{
    if values.len() > 0 {
        let rest = values.drop_last();
        lemma_bounds_are_values(rest);
        assert(values[values.len() - 1] == values.last());
        if rest.contains(least(rest)) {
            let i = choose|i: int| 0 <= i < rest.len() && rest[i] == least(rest);
            assert(values[i] == least(rest));
        }
        if rest.contains(greatest(rest)) {
            let i = choose|i: int| 0 <= i < rest.len() && rest[i] == greatest(rest);
            assert(values[i] == greatest(rest));
        }
    }
}

/// Whether it does not matter which of the two zeros comes first among some values: they do not
/// hold both, or there are smaller or greater ones.
pub open spec fn zeros_do_not_count(values: Seq<Double>) -> bool {
    let zero = Double { bits: 0 };
    values.contains(zero) && values.contains(minus_zero()) ==> least(values).is_below(zero)
        || zero.is_below(greatest(values))
}

/// Two numbers of which none is below the other are the same, but for the sign of zero.
proof fn lemma_same_number(a: Double, b: Double)
    requires
        !a.is_nan(),
        !b.is_nan(),
        !a.is_below(b),
        !b.is_below(a),
    ensures
        a == b || (a.is_same(Double { bits: 0 }) && b.is_same(Double { bits: 0 })),
        a.is_same(Double { bits: 0 }) ==> a == (Double { bits: 0 }) || a == minus_zero(),
        b.is_same(Double { bits: 0 }) ==> b == (Double { bits: 0 }) || b == minus_zero(),
{
    let zero = Double { bits: 0 };
    lemma_order(a, b);
    lemma_order(b, a);
    lemma_order(a, zero);
    lemma_order(b, zero);
    assert(a.scaled() == b.scaled());
    if a.negative() != b.negative() {
        assert(a.units() == 0 && b.units() == 0);
        assert(a.magnitude() == 0 && b.magnitude() == 0);
    }
}

/// Which of two zeros is added does not matter where the other number is none.
proof fn lemma_zero_adds_nothing(y: Double, z: Double, v: Double)
    requires
        y.is_same(Double { bits: 0 }),
        z.is_same(Double { bits: 0 }),
        !v.is_nan(),
        !v.is_same(Double { bits: 0 }),
    ensures
        sum(y, v) == sum(z, v),
        sum(v, y) == sum(v, z),
{
    let zero = Double { bits: 0 };
    lemma_order(y, zero);
    lemma_order(z, zero);
    lemma_order(v, zero);
    lemma_grid_fields(WIDE as nat, 0, 0);
    assert(y.scaled() == 0 && z.scaled() == 0);
}

/// Nothing is above infinity or below minus infinity.
proof fn lemma_infinity(v: Double)
    requires
        !v.is_nan(),
    ensures
        !infinity().is_below(v),
        !v.is_below(minus_infinity()),
{
    lemma_order(infinity(), v);
    lemma_order(v, minus_infinity());
}

proof fn lemma_bounds_agree(a: Seq<Double>, b: Seq<Double>)
    requires
        same_values(a, b),
        zeros_do_not_count(a),
    ensures
        middle(least(a), greatest(a)) == middle(least(b), greatest(b)),
{
    lemma_bounds_are_numbers(a);
    lemma_bounds_are_numbers(b);
    lemma_bounds_are_values(a);
    lemma_bounds_are_values(b);
    lemma_not_below(a, b);
    lemma_not_below(b, a);
    let zero = Double { bits: 0 };
    lemma_same_number(least(a), least(b));
    lemma_same_number(greatest(a), greatest(b));
    assert(!infinity().is_same(zero) && !minus_infinity().is_same(zero)) by {
        lemma_order(zero, infinity());
        lemma_order(minus_infinity(), zero);
    }
    assert(b.contains(zero) ==> a.contains(zero));
    assert(b.contains(minus_zero()) ==> a.contains(minus_zero()));
    if least(a) != least(b) && greatest(a) == greatest(b) {
        lemma_zero_adds_nothing(least(a), least(b), greatest(a));
    } else if least(a) == least(b) && greatest(a) != greatest(b) {
        lemma_zero_adds_nothing(greatest(a), greatest(b), least(a));
    }
}

proof fn lemma_not_below(a: Seq<Double>, b: Seq<Double>)
    requires
        same_values(a, b),
    ensures
        !least(a).is_below(least(b)),
        !greatest(b).is_below(greatest(a)),
{
    lemma_bounds_are_numbers(a);
    lemma_bounds_are_numbers(b);
    lemma_bounds_are_values(a);
    if a.contains(least(a)) {
        assert(b.contains(least(a)));
        let i = choose|i: int| 0 <= i < b.len() && b[i] == least(a);
        least_and_greatest_bound(b, i);
    } else {
        lemma_infinity(least(b));
    }
    if a.contains(greatest(a)) {
        assert(b.contains(greatest(a)));
        let i = choose|i: int| 0 <= i < b.len() && b[i] == greatest(a);
        least_and_greatest_bound(b, i);
    } else {
        lemma_infinity(greatest(b));
    }
}

/// What some materials count for holds a pair exactly where one of them counts for it.
proof fn lemma_contributions_hold(materials: Seq<MaterialEntry>, k: nat, p: (Double, Double))
    requires
        k <= materials.len(),
        contributions(materials, k) is Ok,
    ensures
        contributions(materials, k)->Ok_0.contains(p) <==> exists|i: int|
            0 <= i < k && (#[trigger] materials[i]).contribution()->Ok_0.contains(p),
    decreases k,
{
    if k > 0 {
        let before = contributions(materials, (k - 1) as nat)->Ok_0;
        let own = materials[k - 1].contribution()->Ok_0;
        let all = contributions(materials, k)->Ok_0;
        lemma_contributions_hold(materials, (k - 1) as nat, p);
        assert(all == before + own);
        if all.contains(p) {
            let j = choose|j: int| 0 <= j < all.len() && all[j] == p;
            if j < before.len() {
                assert(before[j] == p);
                assert(before.contains(p));
            } else {
                assert(own[j - before.len()] == p);
                assert(materials[k - 1].contribution()->Ok_0.contains(p));
            }
        }
        if before.contains(p) {
            let j = choose|j: int| 0 <= j < before.len() && before[j] == p;
            assert(all[j] == p);
        }
        if own.contains(p) {
            let j = choose|j: int| 0 <= j < own.len() && own[j] == p;
            assert(all[before.len() + j] == p);
        }
    }
}

proof fn lemma_parts_agree(a: Seq<(Double, Double)>, b: Seq<(Double, Double)>)
    requires
        same_values(a, b),
    ensures
        same_values(firsts(a), firsts(b)),
        same_values(seconds(a), seconds(b)),
{
    lemma_parts_hold(a, b);
    lemma_parts_hold(b, a);
}

proof fn lemma_parts_hold(a: Seq<(Double, Double)>, b: Seq<(Double, Double)>)
    requires
        same_values(a, b),
    ensures
        forall|v: Double| firsts(a).contains(v) ==> #[trigger] firsts(b).contains(v),
        forall|v: Double| seconds(a).contains(v) ==> #[trigger] seconds(b).contains(v),
{
    assert forall|v: Double| firsts(a).contains(v) implies #[trigger] firsts(b).contains(v) by {
        let i = choose|i: int| 0 <= i < firsts(a).len() && firsts(a)[i] == v;
        assert(a.contains(a[i]));
        let j = choose|j: int| 0 <= j < b.len() && b[j] == a[i];
        assert(firsts(b)[j] == v);
    }
    assert forall|v: Double| seconds(a).contains(v) implies #[trigger] seconds(b).contains(v) by {
        let i = choose|i: int| 0 <= i < seconds(a).len() && seconds(a)[i] == v;
        assert(a.contains(a[i]));
        let j = choose|j: int| 0 <= j < b.len() && b[j] == a[i];
        assert(seconds(b)[j] == v);
    }
}

/// Whether the order of some materials does not matter for the reference medium: where it lies
/// between zeros alone, it is the zero that comes first that counts.
pub open spec fn order_does_not_count(materials: Seq<MaterialEntry>) -> bool {
    contributions(materials, materials.len()) matches Ok(pairs) ==> zeros_do_not_count(
        firsts(pairs),
    ) && zeros_do_not_count(seconds(pairs))
}

/// The reference medium is the same for two lists that hold the same materials, in whatever order
/// and however often, where it can be chosen, and not between two zeros: of these it is the one
/// that comes first that counts.
pub proof fn reference_medium_ignores_order(a: Seq<MaterialEntry>, b: Seq<MaterialEntry>)
    requires
        same_values(a, b),
        reference_medium(a) is Ok,
        order_does_not_count(a),
    ensures
        reference_medium(b) == reference_medium(a),
{
    lemma_contributions_ok(a, a.len());
    lemma_contributions_ok(b, b.len());
    assert forall|j: int| 0 <= j < b.len() implies (#[trigger] b[j]).contribution() is Ok by {
        assert(b.contains(b[j]));
        assert(a.contains(b[j]));
        let i = choose|i: int| 0 <= i < a.len() && a[i] == b[j];
        assert(a[i].contribution() is Ok);
    }
    let pa = contributions(a, a.len())->Ok_0;
    let pb = contributions(b, b.len())->Ok_0;
    assert forall|p: (Double, Double)| #[trigger] pa.contains(p) <==> pb.contains(p) by {
        lemma_contributions_hold(a, a.len(), p);
        lemma_contributions_hold(b, b.len(), p);
        if pa.contains(p) {
            let i = choose|i: int|
                0 <= i < a.len() && (#[trigger] a[i]).contribution()->Ok_0.contains(p);
            assert(a.contains(a[i]));
            let j = choose|j: int| 0 <= j < b.len() && b[j] == a[i];
            assert(b[j].contribution()->Ok_0.contains(p));
        }
        if pb.contains(p) {
            let j = choose|j: int|
                0 <= j < b.len() && (#[trigger] b[j]).contribution()->Ok_0.contains(p);
            assert(b.contains(b[j]));
            assert(a.contains(b[j]));
            let i = choose|i: int| 0 <= i < a.len() && a[i] == b[j];
            assert(a[i].contribution()->Ok_0.contains(p));
        }
    }
    lemma_parts_agree(pa, pb);
    lemma_bounds_agree(firsts(pa), firsts(pb));
    lemma_bounds_agree(seconds(pa), seconds(pb));
}

/// Lists with the same entries hold the same values, and none twice where the first holds none
/// twice.
proof fn lemma_permuted(a: Seq<MaterialEntry>, b: Seq<MaterialEntry>)
    requires
        a.to_multiset() == b.to_multiset(),
    ensures
        same_values(a, b),
        a.len() == b.len(),
        a.no_duplicates() ==> b.no_duplicates(),
{
    broadcast use group_to_multiset_ensures;

    assert(a.len() == a.to_multiset().len());
    assert(b.len() == b.to_multiset().len());
    assert forall|v: MaterialEntry| #[trigger] a.contains(v) <==> b.contains(v) by {
        assert(a.contains(v) <==> a.to_multiset().count(v) > 0);
        assert(b.contains(v) <==> b.to_multiset().count(v) > 0);
    }
    if a.no_duplicates() {
        a.lemma_multiset_has_no_duplicates();
        b.lemma_multiset_has_no_duplicates_conv();
    }
}

proof fn lemma_blocks_agree(
    a: Seq<MaterialEntry>,
    b: Seq<MaterialEntry>,
    k: nat,
    show: spec_fn(Double) -> Seq<char>,
)
    requires
        a.len() <= usize::MAX,
        a.len() == b.len(),
        same_values(a, b),
        mat_xml(a, show) is Ok,
        numbered_from_one(b),
        k <= a.len(),
    ensures
        material_blocks(b, ranking(material_numbers(b)), k, show) == material_blocks(
            a,
            ranking(material_numbers(a)),
            k,
            show,
        ),
    decreases k,
{
    if k > 0 {
        let i = k - 1;
        lemma_blocks_agree(a, b, (k - 1) as nat, show);
        materials_stand_in_order(a, show, i);
        let order = ranking(material_numbers(b));
        ranking_is_an_order(material_numbers(b));
        lemma_numbered(b);
        lemma_no_gap(order, b.len());
        let p = order[i].place as int;
        assert(order[i].key == b[p].num_m);
        assert(b[p].num_m == k);
        assert(b.contains(b[p]));
        assert(a.contains(b[p]));
        let q = choose|q: int| 0 <= q < a.len() && a[q] == b[p];
        assert(a[q].num_m == k);
        assert(a[q] == a[ranking(material_numbers(a))[i].place as int]);
    }
}

/// Where a material file can be written, the same materials in another order give the same file,
/// letter for letter, as long as the reference medium is not chosen between two zeros.
pub proof fn mat_xml_ignores_order(
    a: Seq<MaterialEntry>,
    b: Seq<MaterialEntry>,
    show: spec_fn(Double) -> Seq<char>,
)
    requires
        a.len() <= usize::MAX,
        a.to_multiset() == b.to_multiset(),
        mat_xml(a, show) is Ok,
        order_does_not_count(a),
    ensures
        reference_medium(b) == reference_medium(a),
        mat_xml(b, show) == mat_xml(a, show),
{
    mat_xml_succeeds(a, show);
    assert forall|i: int, j: int| 0 <= i < a.len() && 0 <= j < a.len() && i != j implies a[i]
        != a[j] by {
        if i < j {
            assert(a[i].num_m != a[j].num_m);
        } else {
            assert(a[j].num_m != a[i].num_m);
        }
    }
    lemma_permuted(a, b);
    reference_medium_ignores_order(a, b);
    assert forall|j: int| 0 <= j < b.len() implies is_usable(#[trigger] b[j]) && 1 <= b[j].num_m
        <= b.len() by {
        assert(b.contains(b[j]));
        assert(a.contains(b[j]));
        let i = choose|i: int| 0 <= i < a.len() && a[i] == b[j];
        assert(is_usable(a[i]));
    }
    assert forall|i: int, j: int| 0 <= i < j < b.len() implies (#[trigger] b[i]).num_m != (
    #[trigger] b[j]).num_m by {
        assert(b.contains(b[i]) && b.contains(b[j]));
        assert(a.contains(b[i]) && a.contains(b[j]));
        let p = choose|p: int| 0 <= p < a.len() && a[p] == b[i];
        let q = choose|q: int| 0 <= q < a.len() && a[q] == b[j];
        assert(b[i] != b[j]);
        if p < q {
            assert(a[p].num_m != a[q].num_m);
        } else {
            assert(a[q].num_m != a[p].num_m);
        }
    }
    mat_xml_succeeds(b, show);
    lemma_blocks_agree(a, b, a.len(), show);
}

} // verus!
