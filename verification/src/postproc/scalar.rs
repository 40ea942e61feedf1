//! The types of the values in a VTK file, and their big-endian bytes.
use crate::arithmetic::{integer, lemma_exact_integer, lemma_nearest_of};
use crate::double::{Double, WIDE_SIGN};
use crate::formula::{number, signed_number};
use crate::single::{narrowed, narrowing_undoes_widening, widened, Single};
use crate::text::same_text;
use vstd::arithmetic::div_mod::*;
use vstd::arithmetic::mul::*;
use vstd::arithmetic::power2::*;
use vstd::prelude::*;

verus! {

/// The type of a value.
#[derive(Clone, Copy, PartialEq, Eq, Structural, Debug)]
pub enum ScalarType {
    UnsignedChar,
    Char,
    UnsignedShort,
    Short,
    UnsignedInt,
    Int,
    UnsignedLong,
    Long,
    Float,
    Double,
}

/// The type that a file calls `name`.
pub open spec fn scalar_type(name: Seq<char>) -> Option<ScalarType> {
    if name == "unsigned_char"@ {
        Some(ScalarType::UnsignedChar)
    } else if name == "char"@ {
        Some(ScalarType::Char)
    } else if name == "unsigned_short"@ {
        Some(ScalarType::UnsignedShort)
    } else if name == "short"@ {
        Some(ScalarType::Short)
    } else if name == "unsigned_int"@ {
        Some(ScalarType::UnsignedInt)
    } else if name == "int"@ {
        Some(ScalarType::Int)
    } else if name == "unsigned_long"@ {
        Some(ScalarType::UnsignedLong)
    } else if name == "long"@ {
        Some(ScalarType::Long)
    } else if name == "float"@ {
        Some(ScalarType::Float)
    } else if name == "double"@ {
        Some(ScalarType::Double)
    } else {
        None
    }
}

/// The type that a file calls `name`.
pub fn scalar_type_of(name: &str) -> (r: Option<ScalarType>)
    ensures
        r == scalar_type(name@),
{
    if same_text(name, "unsigned_char") {
        Some(ScalarType::UnsignedChar)
    } else if same_text(name, "char") {
        Some(ScalarType::Char)
    } else if same_text(name, "unsigned_short") {
        Some(ScalarType::UnsignedShort)
    } else if same_text(name, "short") {
        Some(ScalarType::Short)
    } else if same_text(name, "unsigned_int") {
        Some(ScalarType::UnsignedInt)
    } else if same_text(name, "int") {
        Some(ScalarType::Int)
    } else if same_text(name, "unsigned_long") {
        Some(ScalarType::UnsignedLong)
    } else if same_text(name, "long") {
        Some(ScalarType::Long)
    } else if same_text(name, "float") {
        Some(ScalarType::Float)
    } else if same_text(name, "double") {
        Some(ScalarType::Double)
    } else {
        None
    }
}

impl ScalarType {
    /// How many bytes a value takes.
    pub open spec fn width(self) -> nat {
        match self {
            ScalarType::UnsignedChar | ScalarType::Char => 1,
            ScalarType::UnsignedShort | ScalarType::Short => 2,
            ScalarType::UnsignedInt | ScalarType::Int | ScalarType::Float => 4,
            ScalarType::UnsignedLong | ScalarType::Long | ScalarType::Double => 8,
        }
    }

    /// How many patterns of that width there are.
    pub open spec fn patterns(self) -> nat {
        match self {
            ScalarType::UnsignedChar | ScalarType::Char => 0x100,
            ScalarType::UnsignedShort | ScalarType::Short => 0x1_0000,
            ScalarType::UnsignedInt | ScalarType::Int | ScalarType::Float => 0x1_0000_0000,
            ScalarType::UnsignedLong | ScalarType::Long | ScalarType::Double =>
                0x1_0000_0000_0000_0000,
        }
    }

    /// Whether the type is one of integers with a sign.
    pub open spec fn is_signed(self) -> bool {
        match self {
            ScalarType::Char | ScalarType::Short | ScalarType::Int | ScalarType::Long => true,
            _ => false,
        }
    }

    pub fn get_width(self) -> (r: usize)
        ensures
            r == self.width(),
    {
        match self {
            ScalarType::UnsignedChar | ScalarType::Char => 1,
            ScalarType::UnsignedShort | ScalarType::Short => 2,
            ScalarType::UnsignedInt | ScalarType::Int | ScalarType::Float => 4,
            ScalarType::UnsignedLong | ScalarType::Long | ScalarType::Double => 8,
        }
    }

    /// The number that a pattern stands for.
    pub open spec fn meaning(self, n: nat) -> Double {
        match self {
            ScalarType::Float => widened(Single { bits: n as u32 }),
            ScalarType::Double => Double { bits: n as u64 },
            _ => if self.is_signed() && 2 * n >= self.patterns() {
                integer(n - self.patterns())
            } else {
                integer(n as int)
            },
        }
    }

    /// The pattern for a number: of an integer type the number without its fraction, moved into
    /// the type's range, with a negative one counted from the number of patterns.
    pub open spec fn pattern(self, v: Double) -> nat {
        match self {
            ScalarType::Float => narrowed(v).bits as nat,
            ScalarType::Double => v.bits as nat,
            _ => if self.is_signed() {
                let half = self.patterns() as int / 2;
                let k = v.clamped(-half, half - 1);
                if k < 0 {
                    (k + self.patterns()) as nat
                } else {
                    k as nat
                }
            } else {
                v.clamped(0, self.patterns() - 1) as nat
            },
        }
    }

    /// Whether the type has a pattern that stands for exactly `v`.
    pub open spec fn holds(self, v: Double) -> bool {
        match self {
            ScalarType::Float => exists|s: Single| !s.is_nan() && v == #[trigger] widened(s),
            ScalarType::Double => true,
            _ => {
                let half = self.patterns() as int / 2;
                &&& v.is_whole()
                &&& v != Double { bits: WIDE_SIGN }
                &&& if self.is_signed() {
                    if v.negative() {
                        v.whole() <= half
                    } else {
                        v.whole() < half
                    }
                } else {
                    !v.negative() && v.whole() < self.patterns()
                }
            },
        }
    }
}

/// The number that bytes write, the most significant first.
pub open spec fn big_endian(bytes: Seq<u8>) -> nat
    decreases bytes.len(),
{
    if bytes.len() == 0 {
        0
    } else {
        256 * big_endian(bytes.drop_last()) + bytes.last() as nat
    }
}

/// The last `width` bytes of `n`, the most significant first.
pub open spec fn big_endian_bytes(n: nat, width: nat) -> Seq<u8>
    decreases width,
{
    if width == 0 {
        Seq::empty()
    } else {
        big_endian_bytes(n / 256, (width - 1) as nat).push((n % 256) as u8)
    }
}

/// How many patterns of `width` bytes there are.
pub open spec fn byte_patterns(width: nat) -> nat
    decreases width,
{
    if width == 0 {
        1
    } else {
        256 * byte_patterns((width - 1) as nat)
    }
}

/// As many patterns as the bytes of a type can have.
pub proof fn lemma_patterns(t: ScalarType)
    ensures
        byte_patterns(t.width()) == t.patterns(),
{
    assert(byte_patterns(1) == 0x100) by {
        reveal_with_fuel(byte_patterns, 2);
    }
    assert(byte_patterns(2) == 0x1_0000) by {
        reveal_with_fuel(byte_patterns, 3);
    }
    assert(byte_patterns(4) == 0x1_0000_0000) by {
        reveal_with_fuel(byte_patterns, 5);
    }
    assert(byte_patterns(8) == 0x1_0000_0000_0000_0000) by {
        reveal_with_fuel(byte_patterns, 9);
    }
}

/// Reading the bytes of a number gives the number back, where they are enough for it.
pub proof fn lemma_big_endian_bytes(n: nat, width: nat)
    ensures
        big_endian_bytes(n, width).len() == width,
        n < byte_patterns(width) ==> big_endian(big_endian_bytes(n, width)) == n,
    decreases width,
{
    if width > 0 {
        lemma_big_endian_bytes(n / 256, (width - 1) as nat);
        assert(big_endian_bytes(n, width).drop_last() =~= big_endian_bytes(
            n / 256,
            (width - 1) as nat,
        ));
    }
}

/// Writing the number that bytes write gives the bytes back.
pub proof fn lemma_big_endian(bytes: Seq<u8>)
    ensures
        big_endian(bytes) < byte_patterns(bytes.len()),
        big_endian_bytes(big_endian(bytes), bytes.len()) == bytes,
    decreases bytes.len(),
{
    if bytes.len() > 0 {
        let rest = bytes.drop_last();
        lemma_big_endian(rest);
        let n = big_endian(bytes);
        assert(n / 256 == big_endian(rest));
        assert(n % 256 == bytes.last());
        assert(big_endian_bytes(n, bytes.len()) =~= bytes);
    } else {
        assert(big_endian_bytes(0, 0) =~= bytes);
    }
}

/// The value that the bytes of a file stand for.
pub open spec fn decoded(t: ScalarType, bytes: Seq<u8>) -> Double {
    t.meaning(big_endian(bytes))
}

/// The bytes of a file that stand for `v`.
pub open spec fn encoded(t: ScalarType, v: Double) -> Seq<u8> {
    big_endian_bytes(t.pattern(v), t.width())
}

/// The number that `bytes[from..from + width]` write.
fn read_big_endian(bytes: &Vec<u8>, from: usize, width: usize) -> (r: u64)
    requires
        from + width <= bytes@.len(),
        width <= 8,
    ensures
        r == big_endian(bytes@.subrange(from as int, from + width)),
        r < byte_patterns(width as nat),
{
    let len: usize = bytes.len();
    let mut r: u64 = 0;
    let mut i: usize = 0;
    proof {
        assert(byte_patterns(8) == 0x1_0000_0000_0000_0000) by {
            reveal_with_fuel(byte_patterns, 9);
        }
        reveal_with_fuel(byte_patterns, 1);
    }
    while i < width
        invariant
            i <= width <= 8,
            from + width <= len,
            len == bytes@.len(),
            r == big_endian(bytes@.subrange(from as int, from + i)),
            r < byte_patterns(i as nat),
        decreases width - i,
    {
        let ghost next = bytes@.subrange(from as int, from + i + 1);
        proof {
            assert(next.drop_last() =~= bytes@.subrange(from as int, from + i));
            lemma_byte_patterns((i + 1) as nat);
        }
        r = 256 * r + bytes[from + i] as u64;
        i += 1;
    }
    r
}

proof fn lemma_byte_patterns(w: nat)
    requires
        w <= 8,
    ensures
        byte_patterns(w) <= 0x1_0000_0000_0000_0000,
    decreases 8 - w,
{
    if w == 8 {
        assert(byte_patterns(8) == 0x1_0000_0000_0000_0000) by {
            reveal_with_fuel(byte_patterns, 9);
        }
    } else {
        lemma_byte_patterns(w + 1);
    }
}

/// Appends the bytes of `n`.
fn push_big_endian(out: &mut Vec<u8>, n: u64, width: usize)
    requires
        width <= 8,
    ensures
        final(out)@ == old(out)@ + big_endian_bytes(n as nat, width as nat),
    decreases width,
{
    if width > 0 {
        push_big_endian(out, n / 256, width - 1);
        out.push((n % 256) as u8);
        assert(out@ =~= old(out)@ + big_endian_bytes(n as nat, width as nat));
    } else {
        assert(out@ =~= old(out)@ + big_endian_bytes(n as nat, 0));
    }
}

impl ScalarType {
    /// The value that `bytes[from..]` begins with.
    pub fn decode(self, bytes: &Vec<u8>, from: usize) -> (r: Double)
        requires
            from + self.width() <= bytes@.len(),
        ensures
            r == decoded(self, bytes@.subrange(from as int, from + self.width())),
    {
        let width: usize = self.get_width();
        let n: u64 = read_big_endian(bytes, from, width);
        proof {
            lemma_patterns(self);
        }
        match self {
            ScalarType::UnsignedChar
            | ScalarType::UnsignedShort
            | ScalarType::UnsignedInt
            | ScalarType::UnsignedLong => number(n),
            ScalarType::Char => {
                if n >= 0x80 {
                    signed_number(n as i64 - 0x100)
                } else {
                    signed_number(n as i64)
                }
            },
            ScalarType::Short => {
                if n >= 0x8000 {
                    signed_number(n as i64 - 0x1_0000)
                } else {
                    signed_number(n as i64)
                }
            },
            ScalarType::Int => {
                if n >= 0x8000_0000 {
                    signed_number(n as i64 - 0x1_0000_0000)
                } else {
                    signed_number(n as i64)
                }
            },
            ScalarType::Long => {
                if n >= 0x8000_0000_0000_0000 {
                    signed_number((n as i128 - 0x1_0000_0000_0000_0000) as i64)
                } else {
                    signed_number(n as i64)
                }
            },
            ScalarType::Float => Single { bits: n as u32 }.widen(),
            ScalarType::Double => Double { bits: n },
        }
    }

    /// Appends the bytes that stand for `value`.
    pub fn encode(self, value: Double, out: &mut Vec<u8>)
        ensures
            final(out)@ == old(out)@ + encoded(self, value),
    {
        let n: u64 = match self {
            ScalarType::UnsignedChar => value.to_unsigned(0xff),
            ScalarType::UnsignedShort => value.to_unsigned(0xffff),
            ScalarType::UnsignedInt => value.to_unsigned(0xffff_ffff),
            ScalarType::UnsignedLong => value.to_unsigned(0xffff_ffff_ffff_ffff),
            ScalarType::Char => {
                let k: i64 = value.to_signed(0x7f);
                if k < 0 {
                    (k + 0x100) as u64
                } else {
                    k as u64
                }
            },
            ScalarType::Short => {
                let k: i64 = value.to_signed(0x7fff);
                if k < 0 {
                    (k + 0x1_0000) as u64
                } else {
                    k as u64
                }
            },
            ScalarType::Int => {
                let k: i64 = value.to_signed(0x7fff_ffff);
                if k < 0 {
                    (k + 0x1_0000_0000) as u64
                } else {
                    k as u64
                }
            },
            ScalarType::Long => {
                let k: i64 = value.to_signed(0x7fff_ffff_ffff_ffff);
                if k < 0 {
                    (k as i128 + 0x1_0000_0000_0000_0000) as u64
                } else {
                    k as u64
                }
            },
            ScalarType::Float => value.narrow().bits as u64,
            ScalarType::Double => value.bits,
        };
        push_big_endian(out, n, self.get_width());
    }
}

/// What a value is, whole and not minus zero, as the number nearest to an integer.
proof fn lemma_integer(v: Double)
    requires
        v.is_whole(),
        v != (Double { bits: WIDE_SIGN }),
    ensures
        ({
            let k = if v.negative() {
                -(v.whole() as int)
            } else {
                v.whole() as int
            };
            integer(k) == v
        }),
        v.negative() ==> v.whole() > 0,
{
    let unit = pow2(1074);
    lemma_pow2_pos(1074);
    lemma_fundamental_div_mod(v.units() as int, unit as int);
    lemma_mul_is_commutative(v.whole() as int, unit as int);
    lemma_nearest_of(v);
    assert(v.whole() * unit == v.units());
    if v.negative() && v.whole() == 0 {
        assert(v.units() == 0);
        crate::double::lemma_order(v, Double { bits: 0 });
    }
}

/// Reading the bytes of a value gives the value back, where the type can hold it.
pub proof fn decoding_undoes_encoding(t: ScalarType, v: Double)
    requires
        t.holds(v),
    ensures
        decoded(t, encoded(t, v)) == v,
        encoded(t, v).len() == t.width(),
{
    lemma_patterns(t);
    match t {
        ScalarType::Float => {
            let s = choose|s: Single| !s.is_nan() && v == #[trigger] widened(s);
            narrowing_undoes_widening(s);
        },
        ScalarType::Double => {},
        _ => {
            lemma_integer(v);
        },
    }
    lemma_big_endian_bytes(t.pattern(v), t.width());
}

/// Whether every pattern of the type stands for a number of its own.
pub open spec fn is_faithful(t: ScalarType) -> bool {
    t != ScalarType::Long && t != ScalarType::UnsignedLong
}

/// Writing the value that bytes stand for gives the bytes back, but for integers that are too long
/// for a number and for what is not a number.
pub proof fn encoding_undoes_decoding(t: ScalarType, bytes: Seq<u8>)
    requires
        bytes.len() == t.width(),
        is_faithful(t),
        t == ScalarType::Float ==> !decoded(t, bytes).is_nan(),
    ensures
        encoded(t, decoded(t, bytes)) == bytes,
{
    let n = big_endian(bytes);
    lemma_big_endian(bytes);
    lemma_patterns(t);
    match t {
        ScalarType::Float => {
            let s = Single { bits: n as u32 };
            assert(!s.is_nan());
            narrowing_undoes_widening(s);
        },
        ScalarType::Double => {},
        _ => {
            let k = if t.is_signed() && 2 * n >= t.patterns() {
                n - t.patterns()
            } else {
                n as int
            };
            lemma_exact_integer(k);
            lemma_whole_of(k);
        },
    }
}

/// An integer of up to 53 bits is its own whole part.
proof fn lemma_whole_of(k: int)
    requires
        -0x1_0000_0000 <= k <= 0x1_0000_0000,
        integer(k).is_finite(),
        integer(k).scaled() == k * pow2(1074),
        integer(k).negative() == (k < 0),
    ensures
        integer(k).whole() == if k < 0 {
            -k
        } else {
            k
        },
{
    let unit = pow2(1074) as int;
    lemma_pow2_pos(1074);
    let a = if k < 0 {
        -k
    } else {
        k
    };
    assert(a * unit == if k < 0 {
        -(k * unit)
    } else {
        k * unit
    }) by (nonlinear_arith)
        requires
            a == if k < 0 {
                -k
            } else {
                k
            },
    ;
    assert(integer(k).units() == a * unit);
    lemma_div_multiples_vanish(a, unit);
    lemma_mul_is_commutative(a, unit);
}

} // verus!
