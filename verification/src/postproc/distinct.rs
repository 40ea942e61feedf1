//! The distinct values of a field, in order.
use crate::double::{lemma_order, Double, WIDE_SIGN, WIDE_TOP};
use crate::sorting::{in_order, ranking, ranking_is_an_order, sort, Ranked};
use std::collections::HashSet;
use vstd::prelude::*;

verus! {

/// The values of `data`, each where it first occurs. Zero and minus zero are two values.
pub open spec fn distinct(data: Seq<Double>) -> Seq<Double>
    decreases data.len(),
{
    if data.len() == 0 {
        Seq::empty()
    } else {
        let before = distinct(data.drop_last());
        if before.contains(data.last()) {
            before
        } else {
            before.push(data.last())
        }
    }
}

/// A key that orders numbers by their value. What is not a number comes last.
pub open spec fn order_key(v: Double) -> u64 {
    if v.is_nan() {
        u64::MAX
    } else if v.negative() {
        (WIDE_SIGN - v.magnitude()) as u64
    } else {
        (WIDE_SIGN + v.magnitude()) as u64
    }
}

/// The keys of some numbers.
pub open spec fn order_keys(values: Seq<Double>) -> Seq<u64> {
    values.map_values(|v: Double| order_key(v))
}

/// `values` in ascending order; equal ones stay in their order.
pub open spec fn ascending(values: Seq<Double>) -> Seq<Double> {
    ranking(order_keys(values)).map_values(|e: Ranked| values[e.place as int])
}

fn key_of(v: Double) -> (r: u64)
    ensures
        r == order_key(v),
{
    let m: u64 = v.get_magnitude();
    if m > WIDE_TOP {
        u64::MAX
    } else if v.bits >= WIDE_SIGN {
        WIDE_SIGN - m
    } else {
        WIDE_SIGN + m
    }
}

/// The values of `data`, each where it first occurs.
fn first_occurrences(data: &Vec<Double>) -> (r: Vec<Double>)
    ensures
        r@ == distinct(data@),
{
    broadcast use vstd::std_specs::hash::group_hash_axioms;

    let mut seen: HashSet<u64> = HashSet::new();
    let mut values: Vec<Double> = Vec::new();
    let mut i: usize = 0;
    assert(data@.take(0) =~= Seq::<Double>::empty());
    assert(values@ =~= distinct(data@.take(0)));
    while i < data.len()
        invariant
            i <= data@.len(),
            values@ == distinct(data@.take(i as int)),
            forall|b: u64| seen@.contains(b) <==> values@.contains(Double { bits: b }),
        decreases data@.len() - i,
    {
        broadcast use vstd::std_specs::hash::group_hash_axioms;

        let v: Double = data[i];
        let ghost before = values@;
        let ghost next = data@.take(i + 1);
        assert(next.drop_last() =~= data@.take(i as int));
        assert(v == Double { bits: v.bits });
        if seen.insert(v.bits) {
            values.push(v);
            assert forall|b: u64| seen@.contains(b) <==> values@.contains(
                Double { bits: b },
            ) by {
                let d = Double { bits: b };
                if before.contains(d) {
                    let k = choose|k: int| 0 <= k < before.len() && before[k] == d;
                    assert(values@[k] == d);
                }
                if d == v {
                    assert(values@[before.len() as int] == d);
                }
            }
        }
        i += 1;
    }
    assert(data@.take(i as int) =~= data@);
    values
}

/// The distinct values of `data` in ascending order.
pub fn distinct_sorted_values(data: &Vec<Double>) -> (r: Vec<Double>)
    ensures
        r@ == ascending(distinct(data@)),
{
    let values: Vec<Double> = first_occurrences(data);
    let ghost keys = order_keys(values@);
    let mut all: Vec<Ranked> = Vec::new();
    let mut i: usize = 0;
    while i < values.len()
        invariant
            i <= values@.len(),
            keys == order_keys(values@),
            all@ == Seq::new(i as nat, |j: int| Ranked { key: keys[j], place: j as usize }),
        decreases values@.len() - i,
    {
        all.push(Ranked { key: key_of(values[i]), place: i });
        i += 1;
        assert(all@ =~= Seq::new(i as nat, |j: int| Ranked { key: keys[j], place: j as usize }));
    }
    let order: Vec<Ranked> = sort(&all);
    proof {
        ranking_is_an_order(keys);
    }
    let mut r: Vec<Double> = Vec::new();
    i = 0;
    while i < order.len()
        invariant
            i <= order@.len(),
            order@.len() == values@.len(),
            forall|j: int| 0 <= j < order@.len() ==> (#[trigger] order@[j]).place < values@.len(),
            r@ == order@.take(i as int).map_values(|e: Ranked| values@[e.place as int]),
        decreases order@.len() - i,
    {
        r.push(values[order[i].place]);
        i += 1;
        assert(r@ =~= order@.take(i as int).map_values(|e: Ranked| values@[e.place as int]));
    }
    assert(order@.take(i as int) =~= order@);
    r
}

/// The distinct values are those of the data, none of them twice.
pub proof fn distinct_keeps_values(data: Seq<Double>)
    ensures
        forall|v: Double| #[trigger] distinct(data).contains(v) <==> data.contains(v),
        distinct(data).no_duplicates(),
        distinct(data).len() <= data.len(),
    decreases data.len(),
{
    if data.len() > 0 {
        let last = data.last();
        let rest = data.drop_last();
        let before = distinct(rest);
        distinct_keeps_values(rest);
        assert forall|v: Double| #[trigger] distinct(data).contains(v) <==> data.contains(v) by {
            if data.contains(v) {
                let k = choose|k: int| 0 <= k < data.len() && data[k] == v;
                if k < rest.len() {
                    assert(rest[k] == v);
                    assert(before.contains(v));
                    let j = choose|j: int| 0 <= j < before.len() && before[j] == v;
                    assert(distinct(data)[j] == v);
                } else if !before.contains(last) {
                    assert(distinct(data)[before.len() as int] == v);
                }
            }
            if distinct(data).contains(v) {
                let j = choose|j: int| 0 <= j < distinct(data).len() && distinct(data)[j] == v;
                if j < before.len() {
                    assert(before[j] == v);
                    assert(before.contains(v));
                    assert(rest.contains(v));
                    let k = choose|k: int| 0 <= k < rest.len() && rest[k] == v;
                    assert(data[k] == v);
                } else {
                    assert(data[data.len() - 1] == v);
                }
            }
        }
    }
}

/// The order of the keys is the order of the numbers.
pub proof fn lemma_order_key(a: Double, b: Double)
    requires
        !a.is_nan(),
        !b.is_nan(),
    ensures
        order_key(a) < order_key(b) <==> a.is_below(b),
        order_key(a) == order_key(b) <==> a.is_same(b),
{
    lemma_order(a, b);
    lemma_order(b, a);
    lemma_order(a, Double { bits: 0 });
    lemma_order(b, Double { bits: 0 });
}

/// The distinct values of a field, sorted, are the values of the field, each once, and none is
/// greater than one that comes after it.
pub proof fn distinct_values_ascend(data: Seq<Double>)
    requires
        data.len() <= usize::MAX,
    ensures
        ({
            let r = ascending(distinct(data));
            &&& forall|v: Double| #[trigger] r.contains(v) <==> data.contains(v)
            &&& r.no_duplicates()
            &&& forall|i: int, j: int|
                0 <= i < j < r.len() ==> !(#[trigger] r[j]).is_below(#[trigger] r[i])
        }),
{
    distinct_keeps_values(data);
    let values = distinct(data);
    let keys = order_keys(values);
    let order = ranking(keys);
    let r = ascending(values);
    ranking_is_an_order(keys);
    assert forall|v: Double| #[trigger] r.contains(v) <==> data.contains(v) by {
        if r.contains(v) {
            let i = choose|i: int| 0 <= i < r.len() && r[i] == v;
            assert(r[i] == values[order[i].place as int]);
            assert(values.contains(v));
        }
        if data.contains(v) {
            assert(values.contains(v));
            let p = choose|p: int| 0 <= p < values.len() && values[p] == v;
            let e = Ranked { key: keys[p], place: p as usize };
            assert(order.contains(e));
            let i = choose|i: int| 0 <= i < order.len() && order[i] == e;
            assert(r[i] == v);
        }
    }
    assert forall|i: int, j: int| 0 <= i < r.len() && 0 <= j < r.len() && i != j implies r[i]
        != r[j] by {
        assert(order[i] != order[j]);
        assert(order[i].key == keys[order[i].place as int]);
        assert(order[j].key == keys[order[j].place as int]);
        if order[i].place == order[j].place {
            assert(order[i] == order[j]);
        }
    }
    assert forall|i: int, j: int| 0 <= i < j < r.len() implies !(#[trigger] r[j]).is_below(
        #[trigger] r[i],
    ) by {
        assert(in_order()(order[i], order[j]));
        assert(order_key(r[i]) == order[i].key);
        assert(order_key(r[j]) == order[j].key);
        if !r[i].is_nan() && !r[j].is_nan() {
            lemma_order_key(r[j], r[i]);
        }
    }
}

} // verus!
