use color::{gradient, gradient_resolving, AlphaColor, GradientIter, Request, MAX_DEPTH, ONE};

type Lab = [f32; 4];

fn srgb_to_linear(c: f32) -> f32 {
    if c <= 0.04045 {
        c / 12.92
    } else {
        ((c + 0.055) / 1.055).powf(2.4)
    }
}

/// Opaque 8-bit sRGB color to premultiplied Oklab with alpha.
fn oklab_of(c: AlphaColor) -> Lab {
    let r = srgb_to_linear(c.r as f32 / 255.0);
    let g = srgb_to_linear(c.g as f32 / 255.0);
    let b = srgb_to_linear(c.b as f32 / 255.0);
    let l = 0.4122214708 * r + 0.5363325363 * g + 0.0514459929 * b;
    let m = 0.2119034982 * r + 0.6806995451 * g + 0.1073969566 * b;
    let s = 0.0883024619 * r + 0.2817188376 * g + 0.6299787005 * b;
    let (l, m, s) = (l.cbrt(), m.cbrt(), s.cbrt());
    let alpha = c.a as f32 / 255.0;
    [
        alpha * (0.2104542553 * l + 0.7936177850 * m - 0.0040720468 * s),
        alpha * (1.9779984951 * l - 2.4285922050 * m + 0.4505937099 * s),
        alpha * (0.0259040371 * l + 0.7827717662 * m - 0.8086757660 * s),
        alpha,
    ]
}

fn lerp(a: Lab, b: Lab, t: f32) -> Lab {
    [
        a[0] + t * (b[0] - a[0]),
        a[1] + t * (b[1] - a[1]),
        a[2] + t * (b[2] - a[2]),
        a[3] + t * (b[3] - a[3]),
    ]
}

fn distance(a: Lab, b: Lab) -> f32 {
    let d = [a[0] - b[0], a[1] - b[1], a[2] - b[2]];
    (d[0] * d[0] + d[1] * d[1] + d[2] * d[2]).sqrt()
}

fn param(p: u32) -> f32 {
    p as f32 / ONE as f32
}

/// Interpolation in Oklab itself.
fn oklab_path(a: Lab, b: Lab) -> impl Fn(u32) -> Lab {
    move |p: u32| lerp(a, b, param(p))
}

/// Interpolation in Oklch along the shorter hue arc, read back in Oklab.
fn oklch_path(a: Lab, b: Lab) -> impl Fn(u32) -> Lab {
    let polar = |c: Lab| ((c[1] * c[1] + c[2] * c[2]).sqrt(), c[2].atan2(c[1]));
    let (c0, h0) = polar(a);
    let (c1, mut h1) = polar(b);
    let tau = std::f32::consts::PI * 2.0;
    if h1 - h0 > tau / 2.0 {
        h1 -= tau;
    } else if h0 - h1 > tau / 2.0 {
        h1 += tau;
    }
    move |p: u32| {
        let t = param(p);
        let l = a[0] + t * (b[0] - a[0]);
        let c = c0 + t * (c1 - c0);
        let h = h0 + t * (h1 - h0);
        [l, c * h.cos(), c * h.sin(), 1.0]
    }
}

fn within(tolerance: f32) -> impl Fn(Lab, Lab, Lab) -> bool {
    move |mid: Lab, a: Lab, b: Lab| distance(mid, lerp(a, b, 0.5)) <= tolerance
}

fn run<E: Fn(u32) -> Lab, F: Fn(Lab, Lab, Lab) -> bool>(
    start: Lab,
    end: Lab,
    eval: &E,
    flat: &F,
) -> Vec<(u32, Lab)> {
    let mut it = gradient(start, end);
    let mut out = Vec::new();
    while let Some(stop) = it.next(eval, flat) {
        out.push(stop);
    }
    out
}

fn red() -> Lab {
    oklab_of(AlphaColor::from_rgba8(255, 0, 0, 255))
}

fn green() -> Lab {
    oklab_of(AlphaColor::from_rgba8(0, 255, 0, 255))
}

fn blue() -> Lab {
    oklab_of(AlphaColor::from_rgba8(0, 0, 255, 255))
}

#[test]
fn red_to_blue_in_oklab_needs_two_stops() {
    let (a, b) = (red(), blue());
    let stops = run(a, b, &oklab_path(a, b), &within(0.02));
    let params: Vec<u32> = stops.iter().map(|s| s.0).collect();
    assert_eq!(params, vec![0, ONE]);
    assert_eq!(param(stops[1].0), 1.0);
}

#[test]
fn red_to_green_through_hue_subdivides() {
    let (a, b) = (red(), green());
    let stops = run(a, b, &oklch_path(a, b), &within(0.002));
    assert!(stops.len() >= 3);
    let interior: Vec<u32> = stops[1..stops.len() - 1].iter().map(|s| s.0).collect();
    assert!(interior.iter().all(|&p| 0 < p && p < ONE));
}

#[test]
fn endpoints_are_exact() {
    let (a, b) = (red(), green());
    let stops = run(a, b, &oklch_path(a, b), &within(0.002));
    assert_eq!(stops[0], (0, a));
    assert_eq!(*stops.last().unwrap(), (ONE, b));
    assert_eq!(param(stops[0].0), 0.0);
    assert_eq!(param(stops.last().unwrap().0), 1.0);
}

#[test]
fn params_increase_within_unit_interval() {
    let (a, b) = (blue(), green());
    let stops = run(a, b, &oklch_path(a, b), &within(0.001));
    for w in stops.windows(2) {
        assert!(w[0].0 < w[1].0);
    }
    assert!(stops.iter().all(|s| s.0 <= ONE));
}

#[test]
fn consecutive_stops_are_within_tolerance() {
    let (a, b) = (red(), green());
    let tolerance = 0.002;
    let eval = oklch_path(a, b);
    let stops = run(a, b, &eval, &within(tolerance));
    for w in stops.windows(2) {
        let mid = (w[0].0 + w[1].0) / 2;
        assert!(distance(eval(mid), lerp(w[0].1, w[1].1, 0.5)) <= tolerance);
    }
}

#[test]
fn same_inputs_same_stops() {
    let (a, b) = (red(), green());
    let first = run(a, b, &oklch_path(a, b), &within(0.002));
    let second = run(a, b, &oklch_path(a, b), &within(0.002));
    assert_eq!(first, second);
}

#[test]
fn lower_tolerance_never_fewer_stops() {
    let (a, b) = (red(), green());
    let mut last = 0;
    for tolerance in [0.1, 0.02, 0.005, 0.002, 0.0005] {
        let n = run(a, b, &oklch_path(a, b), &within(tolerance)).len();
        assert!(n >= last);
        last = n;
    }
    assert!(last > 2);
}

#[test]
fn identical_endpoints_give_two_stops() {
    let a = red();
    let stops = run(a, a, &oklab_path(a, a), &within(0.0));
    assert_eq!(stops.iter().map(|s| s.0).collect::<Vec<u32>>(), vec![0, ONE]);
}

#[test]
fn unreachable_tolerance_stops_at_deepest_level() {
    let (a, b) = (red(), green());
    let mut it = gradient(a, b);
    let eval = oklch_path(a, b);
    let never = |_: Lab, _: Lab, _: Lab| false;
    let mut count: u64 = 0;
    let mut last = 0;
    while let Some((p, _)) = it.next(&eval, &never) {
        if count > 0 {
            assert_eq!(p - last, 1);
        }
        last = p;
        count += 1;
    }
    assert_eq!(count, ONE as u64 + 1);
    assert_eq!(last, ONE);
}

#[test]
fn zero_tolerance_terminates() {
    let (a, b) = (red(), blue());
    let stops = run(a, b, &oklab_path(a, b), &within(0.0));
    assert!(stops.len() <= ONE as usize + 1);
    assert_eq!(stops.last().unwrap().0, ONE);
}

#[test]
fn requests_walk_the_bisection() {
    let mut it: GradientIter<u32> = gradient(10, 20);
    assert_eq!(it.request(), Request::Start);
    assert_eq!(it.start(), (0, 10));
    assert_eq!(it.request(), Request::Probe(ONE / 2));
    it.reject(15);
    assert_eq!((it.target0(), it.target1()), (10, 15));
    assert_eq!(it.request(), Request::Probe(ONE / 4));
    assert_eq!(it.accept(), (ONE / 2, 15));
    assert_eq!((it.target0(), it.target1()), (15, 20));
    assert_eq!(it.request(), Request::Probe(3 * ONE / 4));
    it.reject(17);
    assert_eq!(it.request(), Request::Probe(5 * ONE / 8));
    assert_eq!(it.accept(), (3 * ONE / 4, 17));
    assert_eq!(it.request(), Request::Probe(7 * ONE / 8));
    assert_eq!(it.accept(), (ONE, 20));
    assert_eq!(it.request(), Request::Done);
}

#[test]
fn accepted_steps_coalesce_and_fetch() {
    let mut it: GradientIter<u32> = gradient(0, 100);
    it.start();
    it.reject(50);
    it.reject(25);
    assert_eq!(it.request(), Request::Probe(ONE / 8));
    assert_eq!(it.accept(), (ONE / 4, 25));
    // the right sibling's end lies inside the interval: its color is fetched
    assert_eq!(it.request(), Request::Fetch(ONE / 2));
    it.supply(49);
    assert_eq!((it.target0(), it.target1()), (25, 49));
    assert_eq!(it.request(), Request::Probe(3 * ONE / 8));
    assert_eq!(it.accept(), (ONE / 2, 49));
    // two quarters coalesce into the second half, which ends at the end color
    assert_eq!((it.target0(), it.target1()), (49, 100));
    assert_eq!(it.request(), Request::Probe(3 * ONE / 4));
    assert_eq!(it.accept(), (ONE, 100));
    assert_eq!(it.request(), Request::Done);
}

#[test]
fn deepest_segment_is_settled() {
    let mut it: GradientIter<u32> = gradient(0, 1);
    it.start();
    for _ in 0..MAX_DEPTH {
        assert!(matches!(it.request(), Request::Probe(_)));
        it.reject(0);
    }
    assert_eq!(it.request(), Request::Settle);
    assert_eq!(it.accept(), (1, 0));
    assert_eq!(it.request(), Request::Fetch(2));
    it.supply(0);
    assert_eq!(it.request(), Request::Settle);
}

#[test]
fn next_drives_to_the_end() {
    let mut it: GradientIter<u32> = gradient(7, 9);
    let eval = |p: u32| p;
    let flat = |_: u32, _: u32, _: u32| true;
    assert_eq!(it.next(&eval, &flat), Some((0, 7)));
    assert_eq!(it.next(&eval, &flat), Some((ONE, 9)));
    assert_eq!(it.next(&eval, &flat), None);
    assert_eq!(it.next(&eval, &flat), None);
}

#[test]
fn missing_endpoints_are_resolved_by_evaluation() {
    let eval = |p: u32| p / 2 + 1;
    let flat = |_: u32, _: u32, _: u32| true;
    let mut it = gradient_resolving(5, true, 7, true, &eval);
    assert_eq!(it.next(&eval, &flat), Some((0, 1)));
    assert_eq!(it.next(&eval, &flat), Some((ONE, ONE / 2 + 1)));
    assert_eq!(it.next(&eval, &flat), None);
}

#[test]
fn present_endpoints_are_kept() {
    let eval = |p: u32| p;
    let flat = |_: u32, _: u32, _: u32| true;
    let mut it = gradient_resolving(5, false, 7, false, &eval);
    assert_eq!(it.next(&eval, &flat), Some((0, 5)));
    assert_eq!(it.next(&eval, &flat), Some((ONE, 7)));
    assert_eq!(it.next(&eval, &flat), None);
}

#[test]
fn next_splits_where_the_judge_rejects() {
    let mut it: GradientIter<u32> = gradient(0, 100);
    let eval = |p: u32| p;
    // reject only the whole interval
    let flat = |_: u32, a: u32, b: u32| !(a == 0 && b == 100);
    let params: Vec<u32> = std::iter::from_fn(|| it.next(&eval, &flat)).map(|s| s.0).collect();
    assert_eq!(params, vec![0, ONE / 2, ONE]);
}
