//! How the colours of the materials are found.
use crate::arithmetic::integer;
use crate::double::Double;
use crate::single::{
    single_difference, single_natural, single_product, single_sum, widened, Single,
};
use crate::viewer::colors::{hsv_to_rgb, material_color, single_whole_part, whole_part, Color};
use vstd::arithmetic::div_mod::lemma_fundamental_div_mod;
use vstd::arithmetic::power2::*;
use vstd::prelude::*;

verus! {

/// What is left of a number without its fraction is the integer less than one nearer to zero, and
/// of a whole number the number itself.
pub proof fn whole_part_lacks_the_fraction(d: Double)
    requires
        d.is_finite(),
        d.units() < pow2(63) * pow2(1074),
    ensures
        d.is_whole() ==> whole_part(d) == d,
        !d.is_whole() ==> exists|n: int|
            whole_part(d) == #[trigger] integer(n) && {
                let m = if d.negative() {
                    -n
                } else {
                    n
                };
                0 <= m && m * pow2(1074) <= d.units() < (m + 1) * pow2(1074)
            },
{
    let (u, p) = (d.units() as int, pow2(1074) as int);
    lemma_pow2_pos(1074);
    let m = u / p;
    lemma_fundamental_div_mod(u, p);
    assert(m * p <= u < (m + 1) * p) by (nonlinear_arith)
        requires
            u == p * m + u % p,
            0 <= u % p < p,
    ;
    assert(m < pow2(63)) by (nonlinear_arith)
        requires
            m * p <= u,
            u < pow2(63) * p,
            p > 0,
    ;
    assert(m >= 0) by (nonlinear_arith)
        requires
            u < (m + 1) * p,
            u >= 0,
            p > 0,
    ;
    lemma2_to64_rest();
    let n = if d.negative() {
        -m
    } else {
        m
    };
    assert(d.clamped(i64::MIN as int, i64::MAX as int) == n);
    if !d.is_whole() {
        assert(whole_part(d) == integer(n));
    }
}

/// A colour lies in one of six sectors of the circle of hues. In each the value is one of its
/// components, the value less the saturation is another, and the third goes from one to the other:
/// up in the even sectors, down in the odd ones.
pub proof fn colours_lie_in_six_sectors(h: Single, s: Single, v: Single, r: Color)
    requires
        call_ensures(hsv_to_rgb, (h, s, v), r),
    ensures
        ({
            let zero = Single { bits: 0 };
            let one = Single { bits: 0x3f80_0000 };
            let six = Single { bits: 0x40c0_0000 };
            let part = single_difference(h, single_whole_part(h));
            let round = if widened(part).is_below(widened(zero)) {
                single_sum(part, one)
            } else {
                part
            };
            let at = single_product(round, six);
            let f = single_difference(at, single_whole_part(at));
            let k = widened(single_whole_part(at)).clamped(i32::MIN as int, i32::MAX as int) % 6;
            let least = single_product(v, single_difference(one, s));
            let way = if k % 2 == 0 {
                single_difference(one, f)
            } else {
                f
            };
            let between = single_product(v, single_difference(one, single_product(s, way)));
            // The component that holds the value: red, green twice, blue twice, red again.
            let high = (k + 1) / 2 % 3;
            // The component that holds the least, opposite to it.
            let low = (k / 2 + 2) % 3;
            &&& r[high] == v
            &&& r[low] == least
            &&& r[3 - high - low] == between
        }),
{
}

/// The hue of a material is its place times the golden ratio, its saturation 0.55 and its value
/// 0.85.
pub proof fn hues_move_on_by_the_golden_ratio(
    ordinal: usize,
    r: Color,
    h: Single,
    s: Single,
    v: Single,
    q: Color,
)
    requires
        call_ensures(material_color, (ordinal,), r),
        h == single_product(single_natural(ordinal as nat), Single { bits: 0x3f1e_377a }),
        s == (Single { bits: 0x3f0c_cccd }),
        v == (Single { bits: 0x3f59_999a }),
        call_ensures(hsv_to_rgb, (h, s, v), q),
    ensures
        r@ == q@,
{
}

} // verus!
