//! The radiance integrator, as a state machine over the events of one light path.
//!
//! Tracing a path alternates a nearest-hit query against the scene with a decision.
//! The query is made by the caller; what it found is handed in as a `PathEvent`,
//! and `step` decides what is accumulated and whether the path goes on.
use vstd::prelude::*;

use crate::color::{black_of, color_le, fx_mul, modulate_of, plus_of, white_of, Color, ONE};
use crate::vec3::Vec3;
use vstd::arithmetic::div_mod::{lemma_div_is_ordered, lemma_div_multiples_vanish};
use vstd::arithmetic::mul::lemma_mul_inequality;

verus! {

/// What the nearest-hit query of one bounce found.
#[derive(Clone, Copy, Debug, PartialEq, Eq, Structural)]
pub enum PathEvent {
    /// The ray left the scene; `sky` is the environment's color along it.
    Miss { sky: Color },
    /// The ray met a surface that emits `emitted` and, if it scatters,
    /// attenuates the scattered light by `attenuation`.
    Hit { emitted: Color, attenuation: Option<Color> },
}

/// The running totals of a path that is still being traced.
#[derive(Clone, Copy, Debug, PartialEq, Eq, Structural)]
pub struct PathState {
    /// Light gathered so far.
    pub gathered: Color,
    /// Product of the attenuations met so far.
    pub throughput: Color,
    /// Bounces already taken.
    pub depth: usize,
}

/// The outcome of one decision.
#[derive(Clone, Copy, Debug, PartialEq, Eq, Structural)]
pub enum Step {
    /// Trace the scattered ray next, from this state.
    Trace(PathState),
    /// The path is finished with this radiance.
    Done(Color),
}

/// The state before the first bounce.
pub open spec fn start_of() -> PathState {
    PathState { gathered: black_of(), throughput: white_of(), depth: 0 }
}

/// The decision taken on `e` in state `s`, with a budget of `max_depth` bounces.
pub open spec fn step_of(s: PathState, e: PathEvent, max_depth: usize) -> Step {
    match e {
        PathEvent::Miss { sky } => Step::Done(plus_of(s.gathered, modulate_of(s.throughput, sky))),
        PathEvent::Hit { emitted, attenuation } => {
            let gathered = plus_of(s.gathered, modulate_of(s.throughput, emitted));
            match attenuation {
                None => Step::Done(gathered),
                Some(a) => if s.depth + 1 >= max_depth {
                    Step::Done(black_of())
                } else {
                    Step::Trace(
                        PathState {
                            gathered,
                            throughput: modulate_of(s.throughput, a),
                            depth: (s.depth + 1) as usize,
                        },
                    )
                },
            }
        },
    }
}

/// The radiance of a path from state `s` on, given the events still to come.
/// A recorded path that ends before the path is finished counts as absorbed there.
pub open spec fn run_of(s: PathState, events: Seq<PathEvent>, max_depth: usize) -> Color
    decreases events.len(),
{
    if events.len() == 0 {
        s.gathered
    } else {
        match step_of(s, events[0], max_depth) {
            Step::Done(c) => c,
            Step::Trace(next) => run_of(next, events.drop_first(), max_depth),
        }
    }
}

/// The radiance along a path whose bounces met `events`, with a budget of `max_depth` bounces.
pub open spec fn radiance_of(events: Seq<PathEvent>, max_depth: usize) -> Color {
    if max_depth == 0 {
        black_of()
    } else {
        run_of(start_of(), events, max_depth)
    }
}

impl PathState {
    /// The state before the first bounce.
    pub fn start() -> (r: PathState)
        ensures
            r == start_of(),
    {
        PathState { gathered: Vec3::black(), throughput: Vec3::white(), depth: 0 }
    }
}

/// The first decision of a path: with no budget the path is black at once.
pub fn begin(max_depth: usize) -> (r: Step)
    ensures
        max_depth == 0 ==> r == Step::Done(black_of()),
        max_depth > 0 ==> r == Step::Trace(start_of()),
{
    if max_depth == 0 {
        Step::Done(Vec3::black())
    } else {
        Step::Trace(PathState::start())
    }
}

/// Decides what a bounce that met `e` adds, and whether the path goes on.
///
/// A miss adds the sky seen through the path's throughput. A hit adds the surface's
/// emission through the throughput; an absorbing surface ends the path there, a
/// scattering one multiplies the throughput by its attenuation. A scattered ray that
/// would exceed the bounce budget ends the path black.
pub fn step(s: &PathState, e: &PathEvent, max_depth: usize) -> (r: Step)
    requires
        s.depth < max_depth,
    ensures
        r == step_of(*s, *e, max_depth),
{
    match e {
        PathEvent::Miss { sky } => Step::Done(s.gathered.plus(&s.throughput.modulate(sky))),
        PathEvent::Hit { emitted, attenuation } => {
            let gathered = s.gathered.plus(&s.throughput.modulate(emitted));
            match attenuation {
                None => Step::Done(gathered),
                Some(a) => {
                    if s.depth + 1 >= max_depth {
                        Step::Done(Vec3::black())
                    } else {
                        Step::Trace(
                            PathState {
                                gathered,
                                throughput: s.throughput.modulate(a),
                                depth: s.depth + 1,
                            },
                        )
                    }
                },
            }
        },
    }
}

/// The radiance along a recorded path.
pub fn radiance(events: &Vec<PathEvent>, max_depth: usize) -> (r: Color)
    ensures
        r == radiance_of(events@, max_depth),
{
    let mut s = match begin(max_depth) {
        Step::Done(c) => {
            return c;
        },
        Step::Trace(s) => s,
    };
    let mut i: usize = 0;
    assert(events@.skip(0) =~= events@);
    while i < events.len()
        invariant
            0 <= i <= events.len(),
            s.depth < max_depth,
            max_depth > 0,
            run_of(s, events@.skip(i as int), max_depth) == radiance_of(
                events@,
                max_depth,
            ),
        decreases events.len() - i,
    {
        let ghost rest = events@.skip(i as int);
        assert(rest[0] == events@[i as int]);
        assert(rest.drop_first() =~= events@.skip(i + 1));
        match step(&s, &events[i], max_depth) {
            Step::Done(c) => {
                return c;
            },
            Step::Trace(next) => {
                s = next;
            },
        }
        i = i + 1;
    }
    assert(events@.skip(i as int).len() == 0);
    s.gathered
}

/// Whether the bounce met a surface that scatters the ray on.
pub open spec fn scatters(e: PathEvent) -> bool {
    e matches PathEvent::Hit { attenuation: Some(_), .. }
}

/// Whether the bounce neither emits light nor amplifies it, and, if the ray escaped,
/// the sky it saw is at most `bound` on every channel.
pub open spec fn passive_within(e: PathEvent, bound: Color) -> bool {
    match e {
        PathEvent::Miss { sky } => color_le(sky, bound),
        PathEvent::Hit { emitted, attenuation } => {
            &&& emitted == black_of()
            &&& (attenuation matches Some(a) ==> color_le(a, white_of()))
        },
    }
}

proof fn lemma_scatter_run_black(s: PathState, events: Seq<PathEvent>, max_depth: usize)
    requires
        s.depth < max_depth,
        events.len() >= max_depth - s.depth,
        forall|i: int| 0 <= i < max_depth - s.depth ==> scatters(#[trigger] events[i]),
    ensures
        run_of(s, events, max_depth) == black_of(),
    decreases events.len(),
{
    assert(scatters(events[0]));
    if let Step::Trace(next) = step_of(s, events[0], max_depth) {
        let rest = events.drop_first();
        assert forall|i: int| 0 <= i < max_depth - next.depth implies scatters(#[trigger] rest[i]) by {
            assert(rest[i] == events[i + 1]);
        }
        lemma_scatter_run_black(next, rest, max_depth);
    }
}

/// A path on which every bounce within the budget scatters, as between two facing
/// mirrors, ends black once the budget is spent.
pub proof fn lemma_scattering_path_is_black(events: Seq<PathEvent>, max_depth: usize)
    requires
        events.len() >= max_depth,
        forall|i: int| 0 <= i < max_depth ==> scatters(#[trigger] events[i]),
    ensures
        radiance_of(events, max_depth) == black_of(),
{
    if max_depth > 0 {
        lemma_scatter_run_black(start_of(), events, max_depth);
    }
}

/// A fixed-point product by at most one does not grow a channel.
proof fn lemma_fx_mul_shrinks(a: int, b: int)
    requires
        0 <= a <= u32::MAX,
        0 <= b <= ONE,
    ensures
        fx_mul(a, b) <= a,
        fx_mul(b, a) <= a,
        fx_mul(a, 0) == 0,
{
    lemma_mul_inequality(b, ONE as int, a);
    assert(a * b == b * a && a * (ONE as int) == (ONE as int) * a) by (nonlinear_arith);
    lemma_div_is_ordered(a * b, (ONE as int) * a, ONE as int);
    lemma_div_multiples_vanish(a, ONE as int);
    assert(a * 0 == 0) by (nonlinear_arith);
}

proof fn lemma_passive_run(s: PathState, events: Seq<PathEvent>, max_depth: usize, bound: Color)
    requires
        s.gathered == black_of(),
        color_le(s.throughput, white_of()),
        forall|i: int| 0 <= i < events.len() ==> passive_within(#[trigger] events[i], bound),
    ensures
        color_le(run_of(s, events, max_depth), bound),
    decreases events.len(),
{
    if events.len() > 0 {
        let t = s.throughput;
        assert(passive_within(events[0], bound));
        match events[0] {
            PathEvent::Miss { sky } => {
                lemma_fx_mul_shrinks(sky.x as int, t.x as int);
                lemma_fx_mul_shrinks(sky.y as int, t.y as int);
                lemma_fx_mul_shrinks(sky.z as int, t.z as int);
            },
            PathEvent::Hit { emitted, attenuation } => {
                lemma_fx_mul_shrinks(t.x as int, 0);
                lemma_fx_mul_shrinks(t.y as int, 0);
                lemma_fx_mul_shrinks(t.z as int, 0);
                assert(modulate_of(t, emitted) == black_of());
                if let Some(a) = attenuation {
                    lemma_fx_mul_shrinks(t.x as int, a.x as int);
                    lemma_fx_mul_shrinks(t.y as int, a.y as int);
                    lemma_fx_mul_shrinks(t.z as int, a.z as int);
                    if let Step::Trace(next) = step_of(s, events[0], max_depth) {
                        let rest = events.drop_first();
                        assert forall|i: int| 0 <= i < rest.len() implies passive_within(
                            #[trigger] rest[i],
                            bound,
                        ) by {
                            assert(rest[i] == events[i + 1]);
                        }
                        lemma_passive_run(next, rest, max_depth, bound);
                    }
                }
            },
        }
    }
}

/// Light is not amplified: on a path without emitters whose attenuations are at most
/// one, the radiance is at most the sky it escapes to. With a black sky the path is
/// black; with a sky of at most one it is at most one.
pub proof fn lemma_no_amplification(events: Seq<PathEvent>, max_depth: usize, bound: Color)
    requires
        forall|i: int| 0 <= i < events.len() ==> passive_within(#[trigger] events[i], bound),
    ensures
        color_le(radiance_of(events, max_depth), bound),
{
    if max_depth > 0 {
        lemma_passive_run(start_of(), events, max_depth, bound);
    }
}

proof fn lemma_run_uses_budget(s: PathState, events: Seq<PathEvent>, max_depth: usize)
    requires
        s.depth < max_depth,
        events.len() >= max_depth - s.depth,
    ensures
        run_of(s, events, max_depth) == run_of(s, events.take(max_depth - s.depth), max_depth),
    decreases events.len(),
{
    let k = max_depth - s.depth;
    {
        let short = events.take(k);
        assert(short.len() > 0);
        assert(short[0] == events[0]);
        if let Step::Trace(next) = step_of(s, events[0], max_depth) {
            assert(next.depth == s.depth + 1);
            assert(short.drop_first() =~= events.drop_first().take(max_depth - next.depth));
            lemma_run_uses_budget(next, events.drop_first(), max_depth);
        }
    }
}

/// A path is traced for at most `max_depth` bounces: the radiance of a recorded path
/// depends on its first `max_depth` events only, so at most that many hit queries and
/// scatters are made.
pub proof fn lemma_radiance_uses_budget(events: Seq<PathEvent>, max_depth: usize)
    requires
        events.len() >= max_depth,
    ensures
        radiance_of(events, max_depth) == radiance_of(events.take(max_depth as int), max_depth),
{
    if max_depth > 0 {
        lemma_run_uses_budget(start_of(), events, max_depth);
    }
}

} // verus!
