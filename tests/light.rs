use ray_tracer::buffer::{accumulate, average, merge, zeroed};
use ray_tracer::color::{Color, ONE};
use ray_tracer::integrator::{begin, radiance, step, PathEvent, PathState, Step};
use ray_tracer::vec3::Vec3;

fn grey(v: u32) -> Color {
    Vec3::new(v, v, v)
}

fn mirror() -> PathEvent {
    PathEvent::Hit { emitted: grey(0), attenuation: Some(grey(ONE)) }
}

#[test]
fn fixed_point_arithmetic() {
    let half = grey(ONE / 2);
    assert_eq!(half.modulate(&half), grey(ONE / 4));
    assert_eq!(Color::white().modulate(&Vec3::new(1, 2, 3)), Vec3::new(1, 2, 3));
    assert_eq!(grey(u32::MAX).modulate(&grey(2 * ONE)), grey(u32::MAX));
    assert_eq!(grey(3).plus(&grey(4)), grey(7));
    assert_eq!(grey(u32::MAX).plus(&grey(1)), grey(u32::MAX));
    assert_eq!(Color::black(), grey(0));
}

#[test]
fn miss_returns_sky() {
    let sky = Vec3::new(ONE / 2, ONE, 3 * ONE);
    assert_eq!(radiance(&vec![PathEvent::Miss { sky }], 4), sky);
}

#[test]
fn zero_budget_is_black() {
    let sky = grey(ONE);
    assert_eq!(radiance(&vec![PathEvent::Miss { sky }], 0), grey(0));
    assert_eq!(begin(0), Step::Done(grey(0)));
}

#[test]
fn emission_and_attenuation_combine() {
    let path = vec![
        PathEvent::Hit { emitted: grey(ONE / 4), attenuation: Some(grey(ONE / 2)) },
        PathEvent::Hit { emitted: grey(2 * ONE), attenuation: None },
    ];
    // 1/4 + 1/2 * 2
    assert_eq!(radiance(&path, 16), grey(ONE / 4 + ONE));
}

#[test]
fn scatter_then_sky() {
    let path = vec![
        PathEvent::Hit { emitted: grey(0), attenuation: Some(Vec3::new(ONE / 2, ONE / 4, ONE)) },
        PathEvent::Miss { sky: grey(ONE) },
    ];
    assert_eq!(radiance(&path, 2), Vec3::new(ONE / 2, ONE / 4, ONE));
    // with a budget of one bounce the scattered ray is never traced
    assert_eq!(radiance(&path, 1), grey(0));
}

#[test]
fn facing_mirrors_end_black() {
    for depth in [1usize, 2, 5, 50] {
        let path = vec![mirror(); depth];
        assert_eq!(radiance(&path, depth), grey(0));
    }
}

#[test]
fn passive_scene_with_black_sky_is_black() {
    let path = vec![
        PathEvent::Hit { emitted: grey(0), attenuation: Some(grey(ONE / 2)) },
        PathEvent::Hit { emitted: grey(0), attenuation: Some(grey(ONE)) },
        PathEvent::Miss { sky: grey(0) },
    ];
    assert_eq!(radiance(&path, 8), grey(0));
    let lit = vec![
        PathEvent::Hit { emitted: grey(0), attenuation: Some(grey(ONE / 2)) },
        PathEvent::Miss { sky: grey(ONE) },
    ];
    let c = radiance(&lit, 8);
    assert!(c.x <= ONE && c.y <= ONE && c.z <= ONE);
    assert_eq!(c, grey(ONE / 2));
}

#[test]
fn single_diffuse_bounce_with_depth_one_is_black() {
    // one sample of a white diffuse sphere under a black sky, one bounce allowed
    let path = vec![
        PathEvent::Hit { emitted: grey(0), attenuation: Some(grey(ONE)) },
        PathEvent::Miss { sky: grey(0) },
    ];
    assert_eq!(radiance(&path, 1), grey(0));
}

#[test]
fn step_by_step() {
    let s = PathState::start();
    assert_eq!(s.throughput, grey(ONE));
    let e = PathEvent::Hit { emitted: grey(ONE), attenuation: Some(grey(ONE / 2)) };
    match step(&s, &e, 3) {
        Step::Trace(n) => {
            assert_eq!(n.gathered, grey(ONE));
            assert_eq!(n.throughput, grey(ONE / 2));
            assert_eq!(n.depth, 1);
        }
        Step::Done(_) => panic!("the path should go on"),
    }
    let absorbed = PathEvent::Hit { emitted: grey(5), attenuation: None };
    assert_eq!(step(&s, &absorbed, 3), Step::Done(grey(5)));
}

#[test]
fn recorded_path_that_stops_counts_as_absorbed() {
    let path = vec![PathEvent::Hit { emitted: grey(7), attenuation: Some(grey(ONE)) }];
    assert_eq!(radiance(&path, 4), grey(7));
}

#[test]
fn buffers_accumulate_and_merge() {
    let mut a = zeroed(6);
    assert_eq!(a, vec![0u64; 6]);
    accumulate(&mut a, 1, &Vec3::new(1, 2, 3));
    accumulate(&mut a, 1, &Vec3::new(1, 1, 1));
    assert_eq!(a, vec![0, 0, 0, 2, 3, 4]);
    let b = vec![5u64, 6, 7, 8, 9, 10];
    let m = merge(&vec![a, b], 6);
    assert_eq!(m, vec![5, 6, 7, 10, 12, 14]);
    assert_eq!(average(&m, 2), vec![2, 3, 3, 5, 6, 7]);
    assert_eq!(average(&vec![u64::MAX], 1), vec![u32::MAX]);
    assert_eq!(merge(&vec![], 2), vec![0, 0]);
}

#[test]
fn parallel_sums_match_serial_sums() {
    let samples: Vec<Color> = (0..12u32).map(|k| Vec3::new(k * 100, k * 7 + 1, ONE - k)).collect();
    let mut serial = zeroed(3);
    for c in &samples {
        accumulate(&mut serial, 0, c);
    }
    let mut workers = Vec::new();
    for chunk in samples.chunks(5) {
        let mut buf = zeroed(3);
        for c in chunk {
            accumulate(&mut buf, 0, c);
        }
        workers.push(buf);
    }
    assert_eq!(workers.len(), 3);
    assert_eq!(merge(&workers, 3), serial);
    assert_eq!(average(&merge(&workers, 3), 12), average(&serial, 12));
}

#[test]
fn events_past_the_budget_are_never_used() {
    let mut path = vec![mirror(); 3];
    let short = radiance(&path, 3);
    path.push(PathEvent::Hit { emitted: grey(9 * ONE), attenuation: None });
    path.push(PathEvent::Miss { sky: grey(ONE) });
    assert_eq!(radiance(&path, 3), short);
    assert_eq!(short, grey(0));
}
