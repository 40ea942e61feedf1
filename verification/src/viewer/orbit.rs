//! How the view of the materials turns, by hand and by itself.
use crate::arithmetic::{difference, integer, lemma_nearest_exists, product, sum};
use crate::double::{
    lemma_grid_fields, lemma_grid_increases, Double, NARROW, NARROW_TOP, WIDE, WIDE_TOP,
};
use crate::formula::number;
use crate::single::{
    lemma_widened, narrowing_keeps_numbers, narrowing_undoes_widening, single_difference,
    single_opposite, single_product, single_rem_euclid, single_sum, widened, Single,
};
use vstd::arithmetic::power2::*;
use vstd::prelude::*;

verus! {

/// How many seconds after a drag the view begins to turn again.
pub const IDLE_RESUME_SECS: u64 = 10;

/// Whether the view is dragged, whether it turns by itself, and since when it was left alone.
#[derive(Clone, Copy, PartialEq, Eq, Structural, Debug)]
pub struct Spin {
    pub dragging: bool,
    pub spin_active: bool,
    pub idle_since: Option<Double>,
}

/// When the view has to be drawn again.
#[derive(Clone, Copy, PartialEq, Eq, Structural, Debug)]
pub enum Repaint {
    Now,
    After { seconds: Double },
    Never,
}

/// Whether `a >= b`.
pub open spec fn at_least(a: Double, b: Double) -> bool {
    !a.is_nan() && !b.is_nan() && !a.is_below(b)
}

impl Default for Spin {
    /// The view turns from the moment at which it first appears.
    fn default() -> (r: Spin)
        ensures
            r == (Spin { dragging: false, spin_active: true, idle_since: None }),
    {
        Spin { dragging: false, spin_active: true, idle_since: None }
    }
}

impl Spin {
    /// The state after the user's part in a frame.
    pub open spec fn handled(self, dragged: bool, stopped: bool, now: Double) -> Spin {
        let a = if dragged {
            Spin { dragging: true, spin_active: false, idle_since: None }
        } else {
            self
        };
        if stopped {
            Spin { dragging: false, idle_since: Some(now), ..a }
        } else {
            a
        }
    }

    /// The state where the view begins to turn again if it was left alone for long enough.
    pub open spec fn resumed(self, now: Double) -> Spin {
        match self.idle_since {
            Some(since) => if !self.dragging && at_least(
                difference(now, since),
                integer(IDLE_RESUME_SECS as int),
            ) {
                Spin { dragging: false, spin_active: true, idle_since: None }
            } else {
                self
            },
            None => self,
        }
    }

    /// The state after a frame.
    pub open spec fn next(self, dragged: bool, stopped: bool, now: Double) -> Spin {
        self.handled(dragged, stopped, now).resumed(now)
    }

    /// Takes note of a frame at the time `now`, in which the view may have been dragged, and a
    /// drag may have stopped.
    pub fn update(&mut self, dragged: bool, stopped: bool, now: Double)
        ensures
            *final(self) == old(self).next(dragged, stopped, now),
    {
        if dragged {
            self.dragging = true;
            self.spin_active = false;
            self.idle_since = None;
        }
        if stopped {
            self.dragging = false;
            self.idle_since = Some(now);
        }
        if !self.dragging {
            match self.idle_since {
                Some(since) => {
                    let idle: Double = now.minus(since);
                    let limit: Double = number(IDLE_RESUME_SECS);
                    if !idle.nan() && !limit.nan() && !idle.below(limit) {
                        self.spin_active = true;
                        self.idle_since = None;
                    }
                },
                None => {},
            }
        }
    }

    /// When the view has to be drawn again after a frame at the time `now`: at once while it
    /// moves, and else when it is going to move.
    pub fn repaint(&self, now: Double) -> (r: Repaint)
        ensures
            r == if self.dragging || self.spin_active {
                Repaint::Now
            } else {
                match self.idle_since {
                    Some(since) => {
                        let rest = difference(
                            integer(IDLE_RESUME_SECS as int),
                            difference(now, since),
                        );
                        Repaint::After {
                            seconds: if at_least(rest, Double { bits: 0 }) {
                                rest
                            } else {
                                Double { bits: 0 }
                            },
                        }
                    },
                    None => Repaint::Never,
                }
            },
    {
        if self.dragging || self.spin_active {
            return Repaint::Now;
        }
        match self.idle_since {
            Some(since) => {
                let zero: Double = Double { bits: 0 };
                let rest: Double = number(IDLE_RESUME_SECS).minus(now.minus(since));
                if rest.nan() || rest.below(zero) {
                    Repaint::After { seconds: zero }
                } else {
                    Repaint::After { seconds: rest }
                }
            },
            None => Repaint::Never,
        }
    }
}

/// The angles that the view is seen at, in radians, and whether it turns.
#[derive(Clone, Copy, PartialEq, Eq, Structural, Debug)]
pub struct Orbit {
    pub yaw: Single,
    pub pitch: Single,
    pub spin: Spin,
}

/// What happened to the view in a frame: whether it was dragged and how far, whether a drag
/// stopped, the time, and the time since the last frame.
#[derive(Clone, Copy, PartialEq, Eq, Structural, Debug)]
pub struct Frame {
    pub dragged: bool,
    pub stopped: bool,
    pub dx: Single,
    pub dy: Single,
    pub now: Double,
    pub dt: Single,
}

/// How far the view turns for a drag over one point: 0.008.
pub open spec fn sensitivity() -> Single {
    Single { bits: 0x3c03_126f }
}

/// How fast the view turns by itself, in radians per second: 0.35. It is the same whether the
/// view has just appeared or turns again.
pub open spec fn spin_velocity() -> Single {
    Single { bits: 0x3eb3_3333 }
}

/// How far the view can be tilted: 1.3. It cannot turn over.
pub open spec fn max_pitch() -> Single {
    Single { bits: 0x3fa6_6666 }
}

/// A full turn.
pub open spec fn full_turn() -> Single {
    Single { bits: 0x40c9_0fdb }
}

/// `v` moved into the range of tilts.
pub open spec fn tilted(v: Single) -> Single {
    if widened(v).is_below(widened(single_opposite(max_pitch()))) {
        single_opposite(max_pitch())
    } else if widened(max_pitch()).is_below(widened(v)) {
        max_pitch()
    } else {
        v
    }
}

impl Default for Orbit {
    fn default() -> (r: Orbit)
        ensures
            r == (Orbit {
                yaw: Single { bits: 0 },
                pitch: Single { bits: 0x3ee6_6666 },
                spin: Spin { dragging: false, spin_active: true, idle_since: None },
            }),
    {
        Orbit {
            yaw: Single { bits: 0 },
            pitch: Single { bits: 0x3ee6_6666 },
            spin: Spin::default(),
        }
    }
}

impl Orbit {
    /// The angles after the user's part in a frame.
    pub open spec fn dragged(self, f: Frame) -> (Single, Single) {
        if f.dragged {
            (
                single_difference(self.yaw, single_product(f.dx, sensitivity())),
                tilted(single_sum(self.pitch, single_product(f.dy, sensitivity()))),
            )
        } else {
            (self.yaw, self.pitch)
        }
    }

    /// The view after a frame.
    pub open spec fn after(self, f: Frame) -> Orbit {
        let angles = self.dragged(f);
        let spin = self.spin.next(f.dragged, f.stopped, f.now);
        Orbit {
            yaw: if spin.spin_active {
                single_rem_euclid(
                    single_sum(angles.0, single_product(spin_velocity(), f.dt)),
                    full_turn(),
                )
            } else {
                angles.0
            },
            pitch: angles.1,
            spin,
        }
    }

    /// Takes note of a frame.
    pub fn update(&mut self, f: Frame)
        ensures
            *final(self) == old(self).after(f),
    {
        if f.dragged {
            let factor: Single = Single { bits: 0x3c03_126f };
            self.yaw = self.yaw.minus(f.dx.times(factor));
            let limit: Single = Single { bits: 0x3fa6_6666 };
            let pitch: Single = self.pitch.plus(f.dy.times(factor));
            self.pitch = if pitch.widen().below(limit.negate().widen()) {
                limit.negate()
            } else if limit.widen().below(pitch.widen()) {
                limit
            } else {
                pitch
            };
        }
        self.spin.update(f.dragged, f.stopped, f.now);
        if self.spin.spin_active {
            let velocity: Single = Single { bits: 0x3eb3_3333 };
            self.yaw = self.yaw.plus(velocity.times(f.dt)).rem_euclid(
                Single { bits: 0x40c9_0fdb },
            );
        }
    }
}

/// Whether a tilt is not out of the range in which the view cannot turn over.
pub open spec fn is_upright(pitch: Single) -> bool {
    !widened(pitch).is_below(widened(single_opposite(max_pitch()))) && !widened(
        max_pitch(),
    ).is_below(widened(pitch))
}

/// However it is dragged, a view that is upright stays upright; and its tilt stays a number as long
/// as the drags are numbers.
pub proof fn views_stay_upright(o: Orbit, f: Frame)
    requires
        is_upright(o.pitch),
    ensures
        is_upright(o.after(f).pitch),
        !o.pitch.is_nan() && !f.dy.is_nan() ==> !o.after(f).pitch.is_nan(),
{
    lemma_limits();
    if !o.pitch.is_nan() && !f.dy.is_nan() {
        let factor = sensitivity();
        narrowing_undoes_widening(f.dy);
        narrowing_undoes_widening(o.pitch);
        narrowing_undoes_widening(factor);
        lemma_widened(factor);
        assert(widened(factor).magnitude() > 0) by {
            lemma_grid_fields(NARROW as nat, 0, 0);
            lemma_grid_fields(WIDE as nat, 0, 0);
            lemma_grid_increases(NARROW as nat, 0, factor.magnitude());
            lemma_pow2_pos(925);
            let (a, b) = (factor.units(), pow2(925));
            assert(a * b > 0) by (nonlinear_arith)
                requires
                    a > 0,
                    b > 0,
            ;
        }
        let step = single_product(f.dy, factor);
        lemma_product_is_a_number(widened(f.dy), widened(factor));
        narrowing_keeps_numbers(product(widened(f.dy), widened(factor)));
        narrowing_undoes_widening(step);
        lemma_upright_is_finite(o.pitch);
        lemma_widened(o.pitch);
        lemma_sum_is_a_number(widened(o.pitch), widened(step));
        narrowing_keeps_numbers(sum(widened(o.pitch), widened(step)));
    }
}

/// A number times a number that is neither zero nor infinite is a number.
proof fn lemma_product_is_a_number(a: Double, b: Double)
    requires
        !a.is_nan(),
        b.is_finite(),
        b.magnitude() > 0,
    ensures
        !product(a, b).is_nan(),
{
    let u = a.units() * b.units();
    lemma_pow2_pos(1074);
    lemma_nearest_exists(pow2(1074), u, WIDE_TOP as nat);
}

/// A finite number plus a number is a number.
proof fn lemma_sum_is_a_number(a: Double, b: Double)
    requires
        a.is_finite(),
        !b.is_nan(),
    ensures
        !sum(a, b).is_nan(),
{
    let s = a.scaled() + b.scaled();
    lemma_nearest_exists(1, s as nat, WIDE_TOP as nat);
    lemma_nearest_exists(1, (-s) as nat, WIDE_TOP as nat);
}

/// An upright tilt is finite.
proof fn lemma_upright_is_finite(pitch: Single)
    requires
        is_upright(pitch),
        !pitch.is_nan(),
    ensures
        pitch.magnitude() < NARROW_TOP,
{
    let high = max_pitch();
    let low = single_opposite(high);
    assert(high.magnitude() < NARROW_TOP && low.magnitude() == high.magnitude());
    lemma_widened(high);
    lemma_widened(low);
    if pitch.magnitude() == NARROW_TOP {
        lemma_grid_increases(WIDE as nat, widened(high).magnitude(), WIDE_TOP as nat);
        lemma_grid_increases(WIDE as nat, widened(low).magnitude(), WIDE_TOP as nat);
    }
}

proof fn lemma_limits()
    ensures
        is_upright(max_pitch()),
        is_upright(single_opposite(max_pitch())),
{
    let high = max_pitch();
    let low = single_opposite(high);
    assert(high.magnitude() < NARROW_TOP && low.magnitude() == high.magnitude());
    lemma_widened(high);
    lemma_widened(low);
}

/// When the view begins to turn again, it turns on from where it was left.
pub proof fn spin_goes_on_from_where_it_was(o: Orbit, f: Frame)
    requires
        !o.spin.spin_active,
        !f.dragged,
        o.after(f).spin.spin_active,
    ensures
        o.after(f).yaw == single_rem_euclid(
            single_sum(o.yaw, single_product(spin_velocity(), f.dt)),
            full_turn(),
        ),
        o.after(f).pitch == o.pitch,
{
}

/// While the view is dragged it does not turn by itself.
pub proof fn drags_stop_the_spin(s: Spin, now: Double)
    ensures
        s.next(true, false, now) == (Spin {
            dragging: true,
            spin_active: false,
            idle_since: None,
        }),
{
}

/// A view that does not turn begins to turn only when it was left alone for long enough.
pub proof fn spin_resumes_after_idling(s: Spin, dragged: bool, stopped: bool, now: Double)
    requires
        !s.spin_active,
        s.next(dragged, stopped, now).spin_active,
    ensures
        ({
            let h = s.handled(dragged, stopped, now);
            &&& !h.dragging
            &&& h.idle_since matches Some(since) && at_least(
                difference(now, since),
                integer(IDLE_RESUME_SECS as int),
            )
        }),
{
}

} // verus!
