//! Paths as texts, with `/` between their parts, as on Linux and macOS: the solver and its launcher
//! run on no other system, so that the program is built for these.
use vstd::prelude::*;

verus! {

/// `part` below `base`. An absolute part stands for itself.
pub open spec fn path_join(base: Seq<char>, part: Seq<char>) -> Seq<char> {
    if part.len() > 0 && part[0] == '/' {
        part
    } else if base.len() == 0 || base.last() == '/' {
        base + part
    } else {
        base + "/"@ + part
    }
}

/// `part` below `base`.
pub fn join_path(base: &str, part: &str) -> (r: String)
    ensures
        r@ == path_join(base@, part@),
{
    let b: Vec<char> = crate::text::chars_of(base);
    let p: Vec<char> = crate::text::chars_of(part);
    if p.len() > 0 && p[0] == '/' {
        part.to_owned()
    } else if b.len() == 0 || b[b.len() - 1] == '/' {
        let mut r: String = base.to_owned();
        r.append(part);
        r
    } else {
        let mut r: String = base.to_owned();
        r.append("/");
        r.append(part);
        r
    }
}

} // verus!
