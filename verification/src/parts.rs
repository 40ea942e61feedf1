//! Texts within texts.
use crate::text::{decimal, lemma_decimal_digits};
use vstd::prelude::*;

verus! {

/// Whether `text` holds `part`.
pub open spec fn holds_part(text: Seq<char>, part: Seq<char>) -> bool {
    exists|before: Seq<char>, after: Seq<char>| text == #[trigger] (before + part + after)
}

/// What ends with a part holds it.
pub proof fn lemma_ends_with(before: Seq<char>, part: Seq<char>)
    ensures
        holds_part(before + part, part),
{
    assert(before + part =~= before + part + Seq::<char>::empty());
}

/// What is appended takes no part away.
pub proof fn lemma_part_stays(text: Seq<char>, part: Seq<char>, more: Seq<char>)
    requires
        holds_part(text, part),
    ensures
        holds_part(text + more, part),
{
    let (before, after) = choose|before: Seq<char>, after: Seq<char>|
        text == #[trigger] (before + part + after);
    assert(text + more =~= before + part + (after + more));
}

/// A part of a part is a part.
pub proof fn lemma_part_of_part(text: Seq<char>, middle: Seq<char>, part: Seq<char>)
    requires
        holds_part(text, middle),
        holds_part(middle, part),
    ensures
        holds_part(text, part),
{
    let (a, b) = choose|before: Seq<char>, after: Seq<char>|
        text == #[trigger] (before + middle + after);
    let (c, d) = choose|before: Seq<char>, after: Seq<char>|
        middle == #[trigger] (before + part + after);
    assert(text =~= (a + c) + part + (d + b));
}

/// Different numbers are written differently.
pub proof fn lemma_decimals_differ(a: nat, b: nat)
    requires
        a != b,
    ensures
        decimal(a) != decimal(b),
{
    lemma_decimal_digits(a);
    lemma_decimal_digits(b);
}

/// Texts that differ in the middle only differ.
pub proof fn lemma_middles_differ(p: Seq<char>, x: Seq<char>, y: Seq<char>, q: Seq<char>)
    requires
        x != y,
    ensures
        p + x + q != p + y + q,
{
    let (s, t) = (p + x + q, p + y + q);
    if s == t {
        assert(s.len() == p.len() + x.len() + q.len());
        assert(t.len() == p.len() + y.len() + q.len());
        assert forall|i: int| 0 <= i < x.len() implies #[trigger] x[i] == y[i] by {
            assert(s[p.len() + i] == x[i]);
            assert(t[p.len() + i] == y[i]);
        }
        assert(x =~= y);
    }
}

} // verus!
