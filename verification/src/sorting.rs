//! Sorting by a key, with equal keys kept in their order.
use vstd::multiset::*;
use vstd::prelude::*;
use vstd::relations::*;
use vstd::seq_lib::*;

verus! {

/// A key, and the place that it stood in.
#[derive(Clone, Copy, PartialEq, Eq, Structural, Debug)]
pub struct Ranked {
    pub key: u64,
    pub place: usize,
}

/// The smaller key first, and of two equal keys the earlier.
pub open spec fn in_order() -> spec_fn(Ranked, Ranked) -> bool {
    |a: Ranked, b: Ranked| a.key < b.key || (a.key == b.key && a.place <= b.place)
}

pub proof fn lemma_in_order_total()
    ensures
        total_ordering(in_order()),
{
}

/// Merges two sorted lists.
fn merge(a: &Vec<Ranked>, b: &Vec<Ranked>) -> (r: Vec<Ranked>)
    requires
        sorted_by(a@, in_order()),
        sorted_by(b@, in_order()),
    ensures
        sorted_by(r@, in_order()),
        r@.to_multiset() == a@.to_multiset().add(b@.to_multiset()),
{
    broadcast use group_to_multiset_ensures;

    let mut r: Vec<Ranked> = Vec::new();
    let mut i: usize = 0;
    let mut j: usize = 0;
    assert(a@.take(0) =~= Seq::<Ranked>::empty());
    assert(b@.take(0) =~= Seq::<Ranked>::empty());
    assert(r@.to_multiset() =~= a@.take(0).to_multiset().add(b@.take(0).to_multiset()));
    while i < a.len() || j < b.len()
        invariant
            i <= a@.len(),
            j <= b@.len(),
            sorted_by(a@, in_order()),
            sorted_by(b@, in_order()),
            sorted_by(r@, in_order()),
            forall|x: int, y: int|
                0 <= x < r@.len() && i <= y < a@.len() ==> in_order()(
                    #[trigger] r@[x],
                    #[trigger] a@[y],
                ),
            forall|x: int, y: int|
                0 <= x < r@.len() && j <= y < b@.len() ==> in_order()(
                    #[trigger] r@[x],
                    #[trigger] b@[y],
                ),
            r@.to_multiset() == a@.take(i as int).to_multiset().add(
                b@.take(j as int).to_multiset(),
            ),
        decreases (a@.len() - i) + (b@.len() - j),
    {
        let ghost before = r@;
        let left: bool = if i >= a.len() {
            false
        } else if j >= b.len() {
            true
        } else {
            a[i].key < b[j].key || (a[i].key == b[j].key && a[i].place <= b[j].place)
        };
        if left {
            r.push(a[i]);
            assert(a@.take(i + 1) =~= a@.take(i as int).push(a@[i as int]));
            assert(r@.to_multiset() =~= a@.take(i + 1).to_multiset().add(
                b@.take(j as int).to_multiset(),
            )) by {
                to_multiset_build(before, a@[i as int]);
                to_multiset_build(a@.take(i as int), a@[i as int]);
            }
            assert forall|y: int| i + 1 <= y < a@.len() implies in_order()(
                a@[i as int],
                #[trigger] a@[y],
            ) by {}
            assert forall|y: int| j <= y < b@.len() implies in_order()(
                a@[i as int],
                #[trigger] b@[y],
            ) by {
                assert(in_order()(a@[i as int], b@[j as int]));
                if y > j {
                    assert(in_order()(b@[j as int], b@[y]));
                }
            }
            i += 1;
        } else {
            r.push(b[j]);
            assert(b@.take(j + 1) =~= b@.take(j as int).push(b@[j as int]));
            assert(r@.to_multiset() =~= a@.take(i as int).to_multiset().add(
                b@.take(j + 1).to_multiset(),
            )) by {
                to_multiset_build(before, b@[j as int]);
                to_multiset_build(b@.take(j as int), b@[j as int]);
            }
            assert forall|y: int| j + 1 <= y < b@.len() implies in_order()(
                b@[j as int],
                #[trigger] b@[y],
            ) by {}
            assert forall|y: int| i <= y < a@.len() implies in_order()(
                b@[j as int],
                #[trigger] a@[y],
            ) by {
                assert(in_order()(b@[j as int], a@[i as int]));
                if y > i {
                    assert(in_order()(a@[i as int], a@[y]));
                }
            }
            j += 1;
        }
    }
    assert(a@.take(i as int) =~= a@);
    assert(b@.take(j as int) =~= b@);
    r
}

/// Sorts `v[from..to]`.
fn sort_range(v: &Vec<Ranked>, from: usize, to: usize) -> (r: Vec<Ranked>)
    requires
        from <= to <= v@.len(),
    ensures
        sorted_by(r@, in_order()),
        r@.to_multiset() == v@.subrange(from as int, to as int).to_multiset(),
    decreases to - from,
{
    broadcast use group_to_multiset_ensures;

    let mut r: Vec<Ranked> = Vec::new();
    if to - from >= 2 {
        let mid: usize = from + (to - from) / 2;
        let left: Vec<Ranked> = sort_range(v, from, mid);
        let right: Vec<Ranked> = sort_range(v, mid, to);
        proof {
            let a = v@.subrange(from as int, mid as int);
            let b = v@.subrange(mid as int, to as int);
            assert(v@.subrange(from as int, to as int) =~= a + b);
            lemma_multiset_commutative(a, b);
        }
        merge(&left, &right)
    } else {
        if to > from {
            r.push(v[from]);
        }
        assert(r@ =~= v@.subrange(from as int, to as int));
        r
    }
}

/// Sorts `v`.
pub fn sort(v: &Vec<Ranked>) -> (r: Vec<Ranked>)
    ensures
        r@ == v@.sort_by(in_order()),
        r@.len() == v@.len(),
{
    let r: Vec<Ranked> = sort_range(v, 0, v.len());
    proof {
        broadcast use group_to_multiset_ensures;

        lemma_in_order_total();
        assert(v@.subrange(0, v@.len() as int) =~= v@);
        v@.lemma_sort_by_ensures(in_order());
        lemma_sorted_unique(r@, v@.sort_by(in_order()), in_order());
        assert(r@.len() == r@.to_multiset().len());
        assert(v@.len() == v@.to_multiset().len());
    }
    r
}

/// The places of a list in the order of their keys.
pub open spec fn ranking(keys: Seq<u64>) -> Seq<Ranked> {
    Seq::new(keys.len(), |i: int| Ranked { key: keys[i], place: i as usize }).sort_by(in_order())
}

/// Sorting a list by its keys gives each place once, with its key, in the order of the keys.
pub proof fn ranking_is_an_order(keys: Seq<u64>)
    requires
        keys.len() <= usize::MAX,
    ensures
        ranking(keys).len() == keys.len(),
        sorted_by(ranking(keys), in_order()),
        forall|i: int|
            0 <= i < keys.len() ==> {
                let e = #[trigger] ranking(keys)[i];
                e.place < keys.len() && e.key == keys[e.place as int]
            },
        forall|p: int|
            0 <= p < keys.len() ==> ranking(keys).contains(
                Ranked { key: #[trigger] keys[p], place: p as usize },
            ),
        ranking(keys).no_duplicates(),
{
    broadcast use group_to_multiset_ensures;

    lemma_in_order_total();
    let all = Seq::new(keys.len(), |i: int| Ranked { key: keys[i], place: i as usize });
    all.lemma_sort_by_ensures(in_order());
    let out = ranking(keys);
    assert(all.len() == all.to_multiset().len());
    assert(out.len() == out.to_multiset().len());
    assert forall|i: int| 0 <= i < keys.len() implies {
        let e = #[trigger] out[i];
        e.place < keys.len() && e.key == keys[e.place as int]
    } by {
        assert(out.contains(out[i]));
        assert(all.contains(out[i]));
    }
    assert forall|p: int| 0 <= p < keys.len() implies out.contains(
        Ranked { key: #[trigger] keys[p], place: p as usize },
    ) by {
        assert(all[p] == Ranked { key: keys[p], place: p as usize });
        assert(all.contains(all[p]));
        assert(all.to_multiset().count(all[p]) > 0);
        assert(out.to_multiset().count(all[p]) > 0);
    }
    assert(all.no_duplicates());
    all.lemma_multiset_has_no_duplicates();
    assert forall|x| out.to_multiset().contains(x) implies out.to_multiset().count(x) == 1 by {
        assert(all.to_multiset().contains(x));
    }
    out.lemma_multiset_has_no_duplicates_conv();
}

} // verus!
