//! How the shaders of the dialects differ.
use crate::viewer::shader::{shader_sources, GlslVersion};
use vstd::prelude::*;

verus! {

/// Each shader begins with the line that names its dialect. Behind it the shaders of the two older
/// dialects are alike, but for the precision that one of them needs, and so are those of the two
/// newer ones.
pub proof fn dialects_differ_in_their_first_lines(
    a: (String, String),
    b: (String, String),
    c: (String, String),
    d: (String, String),
)
    requires
        call_ensures(shader_sources, (GlslVersion::Gl120,), a),
        call_ensures(shader_sources, (GlslVersion::Es100,), b),
        call_ensures(shader_sources, (GlslVersion::Gl140,), c),
        call_ensures(shader_sources, (GlslVersion::Es300,), d),
    ensures
        exists|f: Seq<Seq<char>>| #[trigger]
            f.len() == 4 && {
                &&& a.0@ == "#version 120\n"@ + f[0]
                &&& b.0@ == "#version 100\n"@ + f[0]
                &&& c.0@ == "#version 140\n"@ + f[1]
                &&& d.0@ == "#version 300 es\n"@ + f[1]
                &&& a.1@ == "#version 120\n"@ + f[2]
                &&& b.1@ == "#version 100\n"@ + "precision mediump float;\n"@ + f[2]
                &&& c.1@ == "#version 140\n"@ + f[3]
                &&& d.1@ == "#version 300 es\n"@ + f[3]
            },
{
    reveal_strlit("#version 120\n");
    reveal_strlit("#version 100\n");
    reveal_strlit("#version 140\n");
    reveal_strlit("#version 300 es\n");
    reveal_strlit("precision mediump float;\n");
    reveal_strlit("");
    let f = seq![a.0@.skip(13), c.0@.skip(13), a.1@.skip(13), c.1@.skip(13)];
    assert(f.len() == 4);
    assert(a.0@ =~= "#version 120\n"@ + f[0]);
    assert(b.0@.skip(13) =~= f[0]);
    assert(b.0@ =~= "#version 100\n"@ + f[0]);
    assert(c.0@ =~= "#version 140\n"@ + f[1]);
    assert(d.0@.skip(16) =~= f[1]);
    assert(d.0@ =~= "#version 300 es\n"@ + f[1]);
    assert(a.1@ =~= "#version 120\n"@ + f[2]);
    assert(b.1@.skip(38) =~= f[2]);
    assert(b.1@ =~= "#version 100\n"@ + "precision mediump float;\n"@ + f[2]);
    assert(c.1@ =~= "#version 140\n"@ + f[3]);
    assert(d.1@.skip(16) =~= f[3]);
    assert(d.1@ =~= "#version 300 es\n"@ + f[3]);
}

} // verus!
