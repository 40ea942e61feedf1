//! How the view answers a frame.
use crate::arithmetic::{difference, integer, lemma_exact_integer};
use crate::double::Double;
use crate::rounding::less_itself;
use crate::single::{
    single_difference, single_product, single_rem_euclid, single_sum, widened, Single,
};
use crate::viewer::orbit::{Frame, Orbit, Repaint, Spin};
use vstd::arithmetic::power2::*;
use vstd::prelude::*;

verus! {

/// A drag turns the view against it, by 0.008 radians for each point, and tilts it with it, as far
/// as it stays within 1.3 radians; while it lasts the view does not turn by itself.
pub proof fn drags_turn_the_view(o: Orbit, f: Frame)
    requires
        f.dragged,
        !f.stopped,
    ensures
        ({
            let after = o.after(f);
            let factor = Single { bits: 0x3c03_126f };
            let high = Single { bits: 0x3fa6_6666 };
            let low = Single { bits: 0xbfa6_6666 };
            let tilt = single_sum(o.pitch, single_product(f.dy, factor));
            &&& after.yaw == single_difference(o.yaw, single_product(f.dx, factor))
            &&& after.pitch == if widened(tilt).is_below(widened(low)) {
                low
            } else if widened(high).is_below(widened(tilt)) {
                high
            } else {
                tilt
            }
            &&& after.spin == (Spin { dragging: true, spin_active: false, idle_since: None })
        }),
{
}

/// A view that is left alone keeps its tilt. Where it turns by itself, it turns by 0.35 radians in
/// a second, and begins anew after a full turn; where not, it stays.
pub proof fn views_turn_steadily(o: Orbit, f: Frame)
    requires
        !f.dragged,
    ensures
        ({
            let after = o.after(f);
            &&& after.pitch == o.pitch
            &&& !after.spin.spin_active ==> after.yaw == o.yaw
            &&& after.spin.spin_active ==> after.yaw == single_rem_euclid(
                single_sum(o.yaw, single_product(Single { bits: 0x3eb3_3333 }, f.dt)),
                Single { bits: 0x40c9_0fdb },
            )
        }),
{
}

/// The view begins to turn again ten seconds after a drag has stopped, not before.
pub proof fn spin_waits_ten_seconds(s: Spin, now: Double, since: Double)
    requires
        !s.dragging,
        !s.spin_active,
        s.idle_since == Some(since),
        !difference(now, since).is_nan(),
        !integer(10).is_nan(),
    ensures
        s.next(false, false, now) == if difference(now, since).is_below(integer(10)) {
            s
        } else {
            Spin { dragging: false, spin_active: true, idle_since: None }
        },
{
}

/// When a drag stops, the view is left as it is, and from then on it is left alone.
pub proof fn stopped_drags_begin_the_wait(s: Spin, dragged: bool, now: Double)
    requires
        now.is_finite(),
    ensures
        s.next(dragged, true, now) == (Spin {
            dragging: false,
            spin_active: s.spin_active && !dragged,
            idle_since: Some(now),
        }),
{
    less_itself(now);
    lemma_exact_integer(10);
    lemma_pow2_pos(1074);
    let ten = integer(10);
    assert(ten.scaled() == 10 * pow2(1074));
}

/// While the view moves it is drawn at once, and else when the ten seconds are over.
pub proof fn view_is_drawn_when_it_moves(s: Spin, now: Double, r: Repaint)
    requires
        call_ensures(Spin::repaint, (&s, now), r),
    ensures
        r is Now <==> s.dragging || s.spin_active,
        !s.dragging && !s.spin_active && s.idle_since is None ==> r is Never,
        !s.dragging && !s.spin_active && s.idle_since is Some ==> (r matches Repaint::After {
            seconds,
        } && {
            let rest = difference(integer(10), difference(now, s.idle_since->0));
            let zero = Double { bits: 0 };
            seconds == if !rest.is_nan() && !rest.is_below(zero) {
                rest
            } else {
                zero
            }
        }),
{
}

} // verus!
