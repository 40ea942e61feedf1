//! The colours of the materials.
use crate::arithmetic::integer;
use crate::double::Double;
use crate::formula::signed_number;
use crate::single::{
    narrowed, single_difference, single_natural, single_product, single_sum, widened, Single,
};
use vstd::prelude::*;

verus! {

/// A colour: red, green and blue.
pub type Color = [Single; 3];

/// `d` without its fraction.
pub open spec fn whole_part(d: Double) -> Double {
    if !d.is_finite() || d.is_whole() {
        d
    } else {
        integer(d.clamped(i64::MIN as int, i64::MAX as int))
    }
}

/// `s` without its fraction.
pub open spec fn single_whole_part(s: Single) -> Single {
    narrowed(whole_part(widened(s)))
}

fn take_whole_part(s: Single) -> (r: Single)
    ensures
        r == single_whole_part(s),
{
    let d: Double = s.widen();
    if d.nan() || d.get_magnitude() == crate::double::WIDE_TOP || d.is_integer() {
        d.narrow()
    } else {
        signed_number(d.to_signed(i64::MAX)).narrow()
    }
}

pub open spec fn single_zero() -> Single {
    Single { bits: 0 }
}

pub open spec fn single_one() -> Single {
    Single { bits: 0x3f80_0000 }
}

/// How far round the circle `h` is, in sixths: a number from zero to six.
pub open spec fn sixths(h: Single) -> Single {
    let part = single_difference(h, single_whole_part(h));
    let turned = if widened(part).is_below(widened(single_zero())) {
        single_sum(part, single_one())
    } else {
        part
    };
    single_product(turned, Single { bits: 0x40c0_0000 })
}

/// The colour with hue `h`, saturation `s` and value `v`.
pub open spec fn rgb_of(h: Single, s: Single, v: Single) -> Seq<Single> {
    let at = sixths(h);
    let base = single_whole_part(at);
    let f = single_difference(at, base);
    let p = single_product(v, single_difference(single_one(), s));
    let q = single_product(v, single_difference(single_one(), single_product(s, f)));
    let t = single_product(
        v,
        single_difference(single_one(), single_product(s, single_difference(single_one(), f))),
    );
    let sector = widened(base).clamped(i32::MIN as int, i32::MAX as int) % 6;
    if sector == 0 {
        seq![v, t, p]
    } else if sector == 1 {
        seq![q, v, p]
    } else if sector == 2 {
        seq![p, v, t]
    } else if sector == 3 {
        seq![p, q, v]
    } else if sector == 4 {
        seq![t, p, v]
    } else {
        seq![v, p, q]
    }
}

/// The colour with hue `h`, saturation `s` and value `v`.
pub fn hsv_to_rgb(h: Single, s: Single, v: Single) -> (r: Color)
    ensures
        r@ == rgb_of(h, s, v),
{
    let zero: Single = Single { bits: 0 };
    let one: Single = Single { bits: 0x3f80_0000 };
    let part: Single = h.minus(take_whole_part(h));
    let turned: Single = if part.widen().below(zero.widen()) {
        part.plus(one)
    } else {
        part
    };
    let at: Single = turned.times(Single { bits: 0x40c0_0000 });
    let base: Single = take_whole_part(at);
    let f: Single = at.minus(base);
    let p: Single = v.times(one.minus(s));
    let q: Single = v.times(one.minus(s.times(f)));
    let t: Single = v.times(one.minus(s.times(one.minus(f))));
    let number: i64 = base.widen().to_signed(i32::MAX as i64);
    let sector: i64 = if number >= 0 {
        number % 6
    } else {
        5 - (-(number + 1)) % 6
    };
    assert(sector == number as int % 6) by {
        if number < 0 {
            let m = -(number + 1) as int;
            assert(number as int == -m - 1);
            assert((-m - 1) % 6 == 5 - m % 6);
        }
    }
    let r: Color = if sector == 0 {
        [v, t, p]
    } else if sector == 1 {
        [q, v, p]
    } else if sector == 2 {
        [p, v, t]
    } else if sector == 3 {
        [p, q, v]
    } else if sector == 4 {
        [t, p, v]
    } else {
        [v, p, q]
    };
    assert(r@ =~= rgb_of(h, s, v));
    r
}

/// The colour of the material in place `ordinal` of the legend. The hue moves on by the golden
/// ratio, which tells the materials apart however many there are.
pub open spec fn color_of(ordinal: nat) -> Seq<Single> {
    rgb_of(
        single_product(single_natural(ordinal), Single { bits: 0x3f1e_377a }),
        Single { bits: 0x3f0c_cccd },
        Single { bits: 0x3f59_999a },
    )
}

/// The colour of the material in place `ordinal` of the legend.
pub fn material_color(ordinal: usize) -> (r: Color)
    ensures
        r@ == color_of(ordinal as nat),
{
    hsv_to_rgb(
        Single::of_count(ordinal).times(Single { bits: 0x3f1e_377a }),
        Single { bits: 0x3f0c_cccd },
        Single { bits: 0x3f59_999a },
    )
}

} // verus!
