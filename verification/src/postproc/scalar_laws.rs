//! What the bytes of a value stand for.
use crate::arithmetic::integer;
use crate::double::Double;
use crate::postproc::scalar::{
    big_endian, decoded, encoded, lemma_big_endian_bytes, lemma_patterns, scalar_type, ScalarType,
};
use crate::postproc::vtkio::{bytes_per_value, decode_value, VtkError};
use crate::single::{widened, Single};
use vstd::prelude::*;

verus! {

/// The number that two bytes write.
pub open spec fn two(b: Seq<u8>, k: int) -> int {
    256 * b[k] + b[k + 1]
}

/// The number that four bytes write.
pub open spec fn four(b: Seq<u8>, k: int) -> int {
    65536 * two(b, k) + two(b, k + 2)
}

/// The number that eight bytes write.
pub open spec fn eight(b: Seq<u8>) -> int {
    0x1_0000_0000 * four(b, 0) + four(b, 4)
}

/// How wide the values of each type are, and that other types are refused by name.
pub proof fn types_have_their_widths(name: &str, r: Result<usize, VtkError>)
    requires
        call_ensures(bytes_per_value, (name,), r),
    ensures
        name@ == "unsigned_char"@ || name@ == "char"@ ==> r is Ok && r->Ok_0 == 1,
        name@ == "unsigned_short"@ || name@ == "short"@ ==> r is Ok && r->Ok_0 == 2,
        name@ == "unsigned_int"@ || name@ == "int"@ || name@ == "float"@ ==> r is Ok && r->Ok_0
            == 4,
        name@ == "unsigned_long"@ || name@ == "long"@ || name@ == "double"@ ==> r is Ok && r->Ok_0
            == 8,
        r is Ok ==> name@ == "unsigned_char"@ || name@ == "char"@ || name@ == "unsigned_short"@
            || name@ == "short"@ || name@ == "unsigned_int"@ || name@ == "int"@ || name@
            == "unsigned_long"@ || name@ == "long"@ || name@ == "float"@ || name@ == "double"@,
        r matches Err(e) ==> (e matches VtkError::UnsupportedType { name: n } && n@ == name@),
{
    lemma_names();
}

/// The names of the types differ.
proof fn lemma_names()
    ensures
        scalar_type("unsigned_char"@) == Some(ScalarType::UnsignedChar),
        scalar_type("char"@) == Some(ScalarType::Char),
        scalar_type("unsigned_short"@) == Some(ScalarType::UnsignedShort),
        scalar_type("short"@) == Some(ScalarType::Short),
        scalar_type("unsigned_int"@) == Some(ScalarType::UnsignedInt),
        scalar_type("int"@) == Some(ScalarType::Int),
        scalar_type("unsigned_long"@) == Some(ScalarType::UnsignedLong),
        scalar_type("long"@) == Some(ScalarType::Long),
        scalar_type("float"@) == Some(ScalarType::Float),
        scalar_type("double"@) == Some(ScalarType::Double),
{
    reveal_strlit("unsigned_char");
    reveal_strlit("char");
    reveal_strlit("unsigned_short");
    reveal_strlit("short");
    reveal_strlit("unsigned_int");
    reveal_strlit("int");
    reveal_strlit("unsigned_long");
    reveal_strlit("long");
    reveal_strlit("float");
    reveal_strlit("double");
    assert("char"@[0] == 'c' && "short"@[0] == 's' && "int"@[0] == 'i' && "long"@[0] == 'l'
        && "float"@[0] == 'f' && "double"@[0] == 'd');
    assert("unsigned_char"@[9] == 'c' && "unsigned_short"@[9] == 's' && "unsigned_int"@[9] == 'i'
        && "unsigned_long"@[9] == 'l');
    assert("unsigned_char"@[0] == 'u' && "unsigned_short"@[0] == 'u' && "unsigned_int"@[0] == 'u'
        && "unsigned_long"@[0] == 'u');
}

/// The bytes of a value stand with the most significant first; integers with a sign count the
/// upper half of the patterns below zero, and floating-point numbers are their patterns.
pub proof fn most_significant_byte_comes_first(name: &str, bytes: Vec<u8>, r: Double)
    requires
        scalar_type(name@) is Some,
        bytes@.len() == scalar_type(name@)->0.width(),
        call_ensures(decode_value, (name, &bytes), r),
    ensures
        ({
            let b = bytes@;
            let signed = |n: int, half: int|
                integer(
                    if n >= half {
                        n - 2 * half
                    } else {
                        n
                    },
                );
            &&& name@ == "unsigned_char"@ ==> r == integer(b[0] as int)
            &&& name@ == "char"@ ==> r == signed(b[0] as int, 0x80)
            &&& name@ == "unsigned_short"@ ==> r == integer(two(b, 0))
            &&& name@ == "short"@ ==> r == signed(two(b, 0), 0x8000)
            &&& name@ == "unsigned_int"@ ==> r == integer(four(b, 0))
            &&& name@ == "int"@ ==> r == signed(four(b, 0), 0x8000_0000)
            &&& name@ == "unsigned_long"@ ==> r == integer(eight(b))
            &&& name@ == "long"@ ==> r == signed(eight(b), 0x8000_0000_0000_0000)
            &&& name@ == "float"@ ==> r == widened(Single { bits: four(b, 0) as u32 })
            &&& name@ == "double"@ ==> r == (Double { bits: eight(b) as u64 })
        }),
{
    lemma_names();
    let b = bytes@;
    assert(b.take(b.len() as int) =~= b);
    lemma_bytes(b);
}

proof fn lemma_bytes(b: Seq<u8>)
    ensures
        b.len() == 1 ==> big_endian(b) == b[0],
        b.len() == 2 ==> big_endian(b) == two(b, 0),
        b.len() == 4 ==> big_endian(b) == four(b, 0),
        b.len() == 8 ==> big_endian(b) == eight(b),
{
    if b.len() == 1 || b.len() == 2 || b.len() == 4 || b.len() == 8 {
        lemma_prefixes(b, b.len());
        assert(b.take(b.len() as int) =~= b);
    }
}

proof fn lemma_prefixes(b: Seq<u8>, k: nat)
    requires
        k <= b.len() <= 8,
    ensures
        big_endian(b.take(k as int)) == prefix(b, k),
    decreases k,
{
    if k > 0 {
        lemma_prefixes(b, (k - 1) as nat);
        assert(b.take(k as int).drop_last() =~= b.take(k - 1));
        assert(b.take(k as int).last() == b[k - 1]);
    }
}

/// What the first `k` bytes write.
spec fn prefix(b: Seq<u8>, k: nat) -> int {
    let n1 = b[0] as int;
    let n2 = 256 * n1 + b[1];
    let n3 = 256 * n2 + b[2];
    let n4 = 256 * n3 + b[3];
    let n5 = 256 * n4 + b[4];
    let n6 = 256 * n5 + b[5];
    let n7 = 256 * n6 + b[6];
    if k == 0 {
        0
    } else if k == 1 {
        n1
    } else if k == 2 {
        n2
    } else if k == 3 {
        n3
    } else if k == 4 {
        n4
    } else if k == 5 {
        n5
    } else if k == 6 {
        n6
    } else if k == 7 {
        n7
    } else {
        256 * n7 + b[7]
    }
}

proof fn lemma_moved(t: ScalarType, v: Double)
    requires
        t != ScalarType::Float,
        t != ScalarType::Double,
    ensures
        ({
            let half = t.patterns() as int / 2;
            decoded(t, encoded(t, v)) == integer(
                if t.is_signed() {
                    v.clamped(-half, half - 1)
                } else {
                    v.clamped(0, t.patterns() - 1)
                },
            )
        }),
{
    lemma_patterns(t);
    lemma_big_endian_bytes(t.pattern(v), t.width());
}

/// A value that an integer type cannot hold is written without its fraction, as the nearest
/// integer that the type has.
pub proof fn values_are_moved_into_the_range(v: Double)
    ensures
        decoded(ScalarType::UnsignedChar, encoded(ScalarType::UnsignedChar, v)) == integer(
            v.clamped(0, 0xff),
        ),
        decoded(ScalarType::Char, encoded(ScalarType::Char, v)) == integer(v.clamped(-0x80, 0x7f)),
        decoded(ScalarType::UnsignedShort, encoded(ScalarType::UnsignedShort, v)) == integer(
            v.clamped(0, 0xffff),
        ),
        decoded(ScalarType::Short, encoded(ScalarType::Short, v)) == integer(
            v.clamped(-0x8000, 0x7fff),
        ),
        decoded(ScalarType::UnsignedInt, encoded(ScalarType::UnsignedInt, v)) == integer(
            v.clamped(0, 0xffff_ffff),
        ),
        decoded(ScalarType::Int, encoded(ScalarType::Int, v)) == integer(
            v.clamped(-0x8000_0000, 0x7fff_ffff),
        ),
        decoded(ScalarType::UnsignedLong, encoded(ScalarType::UnsignedLong, v)) == integer(
            v.clamped(0, 0xffff_ffff_ffff_ffff),
        ),
        decoded(ScalarType::Long, encoded(ScalarType::Long, v)) == integer(
            v.clamped(-0x8000_0000_0000_0000, 0x7fff_ffff_ffff_ffff),
        ),
{
    lemma_moved(ScalarType::UnsignedChar, v);
    lemma_moved(ScalarType::Char, v);
    lemma_moved(ScalarType::UnsignedShort, v);
    lemma_moved(ScalarType::Short, v);
    lemma_moved(ScalarType::UnsignedInt, v);
    lemma_moved(ScalarType::Int, v);
    lemma_moved(ScalarType::UnsignedLong, v);
    lemma_moved(ScalarType::Long, v);
}

} // verus!
