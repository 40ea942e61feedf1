//! How numbers become text, and text numbers.
//!
//! The text of a number is made, and read, by functions that the caller hands over. All that is
//! asked of them is that they are functions: they take every argument, and give the same result
//! for the same argument.
use crate::double::Double;
use vstd::prelude::*;

verus! {

/// The characters that `show` writes for `v`.
pub open spec fn shown<S: Fn(Double) -> String>(show: S, v: Double) -> Seq<char> {
    (choose|r: String| call_ensures(show, (v,), r))@
}

/// `show` as a function on numbers.
pub open spec fn writer<S: Fn(Double) -> String>(show: S) -> spec_fn(Double) -> Seq<char> {
    |v: Double| shown(show, v)
}

/// Whether `show` takes every number and writes the same number the same way.
pub open spec fn writes<S: Fn(Double) -> String>(show: S) -> bool {
    &&& forall|v: Double| call_requires(show, (v,))
    &&& forall|v: Double, r: String| call_ensures(show, (v,), r) ==> r@ == shown(show, v)
}

/// `v` as `show` writes it.
pub fn write_number<S: Fn(Double) -> String>(show: &S, v: Double) -> (r: String)
    requires
        writes(*show),
    ensures
        r@ == writer(*show)(v),
{
    show(v)
}

/// A result of reading, with its text as characters.
pub open spec fn outcome(r: Result<Double, String>) -> Result<Double, Seq<char>> {
    match r {
        Ok(v) => Ok(v),
        Err(reason) => Err(reason@),
    }
}

/// The number that `parse` reads in `text`, or why it reads none.
pub open spec fn read_as<P: Fn(&str) -> Result<Double, String>>(
    parse: P,
    text: Seq<char>,
) -> Result<Double, Seq<char>> {
    let (s, r) = choose|s: &str, r: Result<Double, String>|
        s@ == text && call_ensures(parse, (s,), r);
    outcome(r)
}

/// `parse` as a function on texts.
pub open spec fn reader<P: Fn(&str) -> Result<Double, String>>(parse: P) -> spec_fn(
    Seq<char>,
) -> Result<Double, Seq<char>> {
    |text: Seq<char>| read_as(parse, text)
}

/// Whether `parse` takes every text and reads the same text the same way.
pub open spec fn reads<P: Fn(&str) -> Result<Double, String>>(parse: P) -> bool {
    &&& forall|s: &str| call_requires(parse, (s,))
    &&& forall|s: &str, r: Result<Double, String>|
        call_ensures(parse, (s,), r) ==> outcome(r) == read_as(parse, s@)
}

/// The number that `parse` reads in `s`, or why it reads none.
pub fn read_number<P: Fn(&str) -> Result<Double, String>>(parse: &P, s: &str) -> (r: Result<
    Double,
    String,
>)
    requires
        reads(*parse),
    ensures
        outcome(r) == reader(*parse)(s@),
{
    parse(s)
}

/// Appends `n` in decimal.
pub fn push_count(s: &mut String, n: usize)
    ensures
        final(s)@ == old(s)@ + crate::text::decimal(n as nat),
{
    crate::text::push_decimal(s, n as u64);
}

} // verus!
