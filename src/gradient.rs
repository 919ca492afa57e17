//! The adaptive gradient sampler.
//!
//! The sampler walks the bisection of `[0, ONE]` left to right. It keeps the
//! current segment as an index `t0` at a depth, with `dt` its width in units of
//! `1 / ONE`, so that `t0 * dt` is its exact start. The caller evaluates colors
//! and judges flatness; the sampler says, through `request`, what it needs next.
use crate::subdivision::{
    coalesce, descendant, midpoint_at, lemma_children, lemma_descendant_step, lemma_span_order, lemma_last_index, lemma_one, lemma_seg_in_range, lemma_span_halves,
    lemma_tail_last, lemma_tail_next, lemma_tail_split, lemma_two_pow_pos, leaves, seg_end,
    seg_start, span, stops, tail, two_pow, MAX_DEPTH, ONE,
};
use vstd::prelude::*;

verus! {

/// What the sampler needs before it can go on.
#[derive(Clone, Copy, Debug, PartialEq, Eq, Structural)]
pub enum Request {
    /// Call `start` to take the first stop.
    Start,
    /// Evaluate the gradient at this parameter and hand the color to `supply`.
    Fetch(u32),
    /// Evaluate the gradient at this parameter, the middle of the current
    /// segment, and compare it with the midpoint of `target0` and `target1`:
    /// within tolerance call `accept`, else `reject` with the color.
    Probe(u32),
    /// The current segment lies at `MAX_DEPTH`: call `accept`.
    Settle,
    /// Every stop has been emitted.
    Done,
}

/// `flat` answered "not flat" on the segment at depth `i` that starts at `s`
/// with color `c0`, given a color that `eval` returned for its middle.
pub open spec fn rejected<C, E: Fn(u32) -> C, F: Fn(C, C, C) -> bool>(
    eval: &E,
    flat: &F,
    s: int,
    i: nat,
    c0: C,
) -> bool {
    exists|m: C, b: C|
        eval.ensures((midpoint_at(s, i) as u32,), m) && #[trigger] flat.ensures((m, c0, b), false)
}

/// Lazily produces the stops of a gradient, from parameter 0 to `ONE`.
pub struct GradientIter<C> {
    started: bool,
    pending: bool,
    t0: u32,
    dt: u32,
    depth: u32,
    target0: C,
    target1: C,
    end_color: C,
}

/// Starts sampling the gradient from `start` to `end`, both given in the
/// premultiplied working representation with every component resolved.
pub fn gradient<C: Copy>(start: C, end: C) -> (r: GradientIter<C>)
    ensures
        r.wf(),
        !r.started(),
        r.index() == 0,
        r.level() == 0,
        r.color0() == start,
        r.color1() == end,
        r.color_end() == end,
        forall|flat: spec_fn(int, nat) -> bool| #[trigger]
            r.schedule(flat) == leaves(flat, 0, 0),
{
    proof {
        lemma_one();
    }
    let r = GradientIter {
        started: false,
        pending: false,
        t0: 0,
        dt: ONE,
        depth: 0,
        target0: start,
        target1: end,
        end_color: end,
    };
    assert forall|flat: spec_fn(int, nat) -> bool| #[trigger]
        r.schedule(flat) == leaves(flat, 0, 0) by {
        assert(leaves(flat, 0, 0) + tail(flat, 0, 0) =~= leaves(flat, 0, 0));
    }
    r
}

/// Starts sampling like `gradient`, first resolving an endpoint whose
/// components are partly missing: such an endpoint is replaced by the color
/// that `eval` gives at its end of the interval (0 for the start, `ONE` for
/// the end), so that the emitted endpoint stops are fully concrete.
pub fn gradient_resolving<C: Copy, E: Fn(u32) -> C>(
    start: C,
    start_missing: bool,
    end: C,
    end_missing: bool,
    eval: &E,
) -> (r: GradientIter<C>)
    requires
        forall|p: u32| #[trigger] eval.requires((p,)),
    ensures
        r.wf(),
        !r.started(),
        r.index() == 0,
        r.level() == 0,
        start_missing ==> eval.ensures((0u32,), r.color0()),
        !start_missing ==> r.color0() == start,
        end_missing ==> eval.ensures((ONE,), r.color_end()),
        !end_missing ==> r.color_end() == end,
        r.color1() == r.color_end(),
        forall|flat: spec_fn(int, nat) -> bool| #[trigger]
            r.schedule(flat) == leaves(flat, 0, 0),
{
    let first = if start_missing {
        eval(0)
    } else {
        start
    };
    let last = if end_missing {
        eval(ONE)
    } else {
        end
    };
    gradient(first, last)
}

/// A sampler that has not started emits the stop at 0 and then the end of
/// each segment of its schedule; for every verdict `fl` that is exactly
/// `stops(fl)`, so the laws proved of `stops` hold of what `next` returns.
pub proof fn lemma_fresh_emits_stops<C: Copy>(it: GradientIter<C>, fl: spec_fn(int, nat) -> bool)
    requires
        it.wf(),
        !it.started(),
    ensures
        seq![0int] + it.schedule(fl).map_values(|l: (int, nat)| seg_end(l.0, l.1)) == stops(fl),
{
    assert(it.schedule(fl) =~= leaves(fl, 0, 0));
}

proof fn lemma_end_product(t0: u32, dt: u32, depth: u32)
    requires
        dt == span(depth as nat),
    ensures
        (t0 + 1) * dt == seg_end(t0 as int, depth as nat),
        t0 * dt == seg_start(t0 as int, depth as nat),
{
    assert((t0 + 1) * dt == seg_end(t0 as int, depth as nat) && t0 * dt == seg_start(
        t0 as int,
        depth as nat,
    )) by (nonlinear_arith)
        requires
            dt == span(depth as nat),
            seg_end(t0 as int, depth as nat) == (t0 + 1) * span(depth as nat),
            seg_start(t0 as int, depth as nat) == t0 * span(depth as nat),
    ;
}

/// An accepted segment reached from `first` by rejected left halves is the
/// head of `first`'s schedule under every verdict that agrees with them.
proof fn lemma_accept_schedule<C: Copy>(
    first: GradientIter<C>,
    here: GradientIter<C>,
    after: GradientIter<C>,
    p: int,
)
    requires
        here.wf(),
        here.started() && !here.done(),
        first.level() <= here.level(),
        here.index() == descendant(first.index(), first.level(), here.level()),
        seg_start(here.index(), here.level()) == seg_start(first.index(), first.level()),
        p == seg_end(here.index(), here.level()),
        forall|fl: spec_fn(int, nat) -> bool|
            (forall|i: nat|
                first.level() <= i < here.level() ==> !#[trigger] fl(
                    descendant(first.index(), first.level(), i),
                    i,
                )) ==> #[trigger] first.schedule(fl) == here.schedule(fl),
        forall|fl: spec_fn(int, nat) -> bool|
            fl(here.index(), here.level()) || here.level() == MAX_DEPTH ==> #[trigger] here.schedule(
                fl,
            ) == seq![(here.index(), here.level())] + after.schedule(fl),
    ensures
        p - seg_start(first.index(), first.level()) == span(here.level()),
        forall|fl: spec_fn(int, nat) -> bool|
            (forall|i: nat|
                first.level() <= i <= MAX_DEPTH && span(i) > p - seg_start(
                    first.index(),
                    first.level(),
                ) ==> !#[trigger] fl(descendant(first.index(), first.level(), i), i)) && (forall|
                i: nat,
            |
                first.level() <= i < MAX_DEPTH && span(i) == p - seg_start(
                    first.index(),
                    first.level(),
                ) ==> #[trigger] fl(descendant(first.index(), first.level(), i), i)) ==> {
                &&& #[trigger] first.schedule(fl).len() > 0
                &&& seg_end(first.schedule(fl)[0].0, first.schedule(fl)[0].1) == p
                &&& after.schedule(fl) == first.schedule(fl).drop_first()
            },
{
    lemma_seg_in_range(here.index(), here.level());
    let w = p - seg_start(first.index(), first.level());
    assert forall|fl: spec_fn(int, nat) -> bool|
        (forall|i: nat|
            first.level() <= i <= MAX_DEPTH && span(i) > p - seg_start(
                first.index(),
                first.level(),
            ) ==> !#[trigger] fl(descendant(first.index(), first.level(), i), i)) && (forall|
            i: nat,
        |
            first.level() <= i < MAX_DEPTH && span(i) == p - seg_start(
                first.index(),
                first.level(),
            ) ==> #[trigger] fl(descendant(first.index(), first.level(), i), i)) implies {
        &&& #[trigger] first.schedule(fl).len() > 0
        &&& seg_end(first.schedule(fl)[0].0, first.schedule(fl)[0].1) == p
        &&& after.schedule(fl) == first.schedule(fl).drop_first()
    } by {
        assert forall|i: nat| first.level() <= i < here.level() implies !#[trigger] fl(
            descendant(first.index(), first.level(), i),
            i,
        ) by {
            lemma_span_order(i, here.level());
        }
        assert(first.schedule(fl) == here.schedule(fl));
        if here.level() < MAX_DEPTH {
            assert(span(here.level()) == w);
            assert(fl(descendant(first.index(), first.level(), here.level()), here.level()));
        }
        assert(here.schedule(fl) == seq![(here.index(), here.level())] + after.schedule(fl));
        assert(first.schedule(fl).drop_first() =~= after.schedule(fl));
        assert(first.schedule(fl).len() == after.schedule(fl).len() + 1);
        assert(first.schedule(fl)[0] == (here.index(), here.level()));
    }
}

impl<C: Copy> GradientIter<C> {
    pub closed spec fn started(&self) -> bool {
        self.started
    }

    /// A color must be fetched for the end of the current segment.
    pub closed spec fn pending(&self) -> bool {
        self.pending
    }

    /// Index of the current segment at its depth.
    pub closed spec fn index(&self) -> int {
        self.t0 as int
    }

    /// Depth of the current segment.
    pub closed spec fn level(&self) -> nat {
        self.depth as nat
    }

    /// Color at the start of the current segment.
    pub closed spec fn color0(&self) -> C {
        self.target0
    }

    /// Color at the end of the current segment, once fetched.
    pub closed spec fn color1(&self) -> C {
        self.target1
    }

    /// Color at parameter `ONE`.
    pub closed spec fn color_end(&self) -> C {
        self.end_color
    }

    /// The last stop has been emitted.
    pub open spec fn done(&self) -> bool {
        self.started() && self.index() == 1 && self.level() == 0
    }

    pub closed spec fn wf(&self) -> bool {
        &&& self.depth <= MAX_DEPTH
        &&& self.dt == span(self.depth as nat)
        &&& (self.t0 < two_pow(self.depth as nat) || self.done())
        &&& (!self.started ==> self.t0 == 0 && self.depth == 0 && !self.pending)
        &&& (self.pending ==> !self.done() && seg_end(self.t0 as int, self.depth as nat) < ONE)
        &&& (!self.done() && !self.pending && seg_end(self.t0 as int, self.depth as nat) == ONE
            ==> self.target1 == self.end_color)
    }

    /// The segments still to be accepted, left to right, when `flat` judges
    /// every segment that will be probed.
    pub closed spec fn schedule(&self, flat: spec_fn(int, nat) -> bool) -> Seq<(int, nat)> {
        if self.done() {
            seq![]
        } else {
            leaves(flat, self.t0 as int, self.depth as nat) + tail(
                flat,
                self.t0 as int,
                self.depth as nat,
            )
        }
    }

    /// What the sampler needs next.
    pub fn request(&self) -> (r: Request)
        requires
            self.wf(),
        ensures
            !self.started() ==> r == Request::Start,
            self.done() ==> r == Request::Done,
            self.started() && !self.done() && self.pending() ==> r == Request::Fetch(
                seg_end(self.index(), self.level()) as u32,
            ),
            self.started() && !self.done() && !self.pending() && self.level() == MAX_DEPTH ==> r
                == Request::Settle,
            self.started() && !self.done() && !self.pending() && self.level() < MAX_DEPTH ==> r
                == Request::Probe(
                (seg_start(self.index(), self.level()) + span(self.level() + 1)) as u32,
            ),
    {
        if !self.started {
            Request::Start
        } else if self.t0 == 1 && self.depth == 0 {
            Request::Done
        } else {
            proof {
                lemma_seg_in_range(self.t0 as int, self.depth as nat);
                lemma_end_product(self.t0, self.dt, self.depth);
            }
            if self.pending {
                Request::Fetch((self.t0 + 1) * self.dt)
            } else if self.depth == MAX_DEPTH {
                Request::Settle
            } else {
                proof {
                    lemma_span_halves(self.depth as nat);
                    lemma_children(self.t0 as int, self.depth as nat);
                }
                Request::Probe(self.t0 * self.dt + self.dt / 2)
            }
        }
    }

    /// Color at the start of the segment under test.
    pub fn target0(&self) -> (c: C)
        ensures
            c == self.color0(),
    {
        self.target0
    }

    /// Color at the end of the segment under test.
    pub fn target1(&self) -> (c: C)
        ensures
            c == self.color1(),
    {
        self.target1
    }

    /// Emits the first stop: parameter 0 with the start color.
    pub fn start(&mut self) -> (r: (u32, C))
        requires
            old(self).wf(),
            !old(self).started(),
        ensures
            final(self).wf(),
            r == (0u32, old(self).color0()),
            final(self).started(),
            !final(self).pending(),
            final(self).index() == old(self).index(),
            final(self).level() == old(self).level(),
            final(self).color0() == old(self).color0(),
            final(self).color1() == old(self).color1(),
            final(self).color_end() == old(self).color_end(),
            forall|flat: spec_fn(int, nat) -> bool| #[trigger]
                final(self).schedule(flat) == old(self).schedule(flat),
    {
        self.started = true;
        (0, self.target0)
    }

    /// Takes the color at the end of the current segment, as `Request::Fetch` asked.
    pub fn supply(&mut self, color: C)
        requires
            old(self).wf(),
            old(self).pending(),
        ensures
            final(self).wf(),
            !final(self).pending(),
            final(self).started(),
            final(self).color1() == color,
            final(self).index() == old(self).index(),
            final(self).level() == old(self).level(),
            final(self).color0() == old(self).color0(),
            final(self).color_end() == old(self).color_end(),
            forall|flat: spec_fn(int, nat) -> bool| #[trigger]
                final(self).schedule(flat) == old(self).schedule(flat),
    {
        self.pending = false;
        self.target1 = color;
    }

    /// The current segment is too curved: test its left half next, whose end
    /// color is `mid`, the color evaluated at the middle.
    pub fn reject(&mut self, mid: C)
        requires
            old(self).wf(),
            old(self).started(),
            !old(self).done(),
            !old(self).pending(),
            old(self).level() < MAX_DEPTH,
        ensures
            final(self).wf(),
            final(self).started(),
            !final(self).pending(),
            final(self).index() == 2 * old(self).index(),
            final(self).level() == old(self).level() + 1,
            final(self).color0() == old(self).color0(),
            final(self).color1() == mid,
            final(self).color_end() == old(self).color_end(),
            forall|flat: spec_fn(int, nat) -> bool|
                !flat(old(self).index(), old(self).level()) ==> #[trigger] final(self).schedule(
                    flat,
                ) == old(self).schedule(flat),
    {
        proof {
            lemma_seg_in_range(self.t0 as int, self.depth as nat);
            lemma_span_halves(self.depth as nat);
            lemma_children(self.t0 as int, self.depth as nat);
        }
        let ghost prev = *self;
        self.t0 = self.t0 * 2;
        self.dt = self.dt / 2;
        self.depth = self.depth + 1;
        self.target1 = mid;
        proof {
            assert(two_pow(self.depth as nat) == 2 * two_pow(prev.depth as nat));
            assert forall|flat: spec_fn(int, nat) -> bool|
                !flat(prev.t0 as int, prev.depth as nat) implies #[trigger] self.schedule(flat)
                == prev.schedule(flat) by {
                lemma_tail_split(flat, prev.t0 as int, prev.depth as nat);
            }
        }
    }

    /// The current segment is flat enough, or lies at `MAX_DEPTH`: emit the
    /// stop at its end and move on to the next segment, as large as the
    /// segments already accepted allow.
    pub fn accept(&mut self) -> (r: (u32, C))
        requires
            old(self).wf(),
            old(self).started(),
            !old(self).done(),
            !old(self).pending(),
        ensures
            final(self).wf(),
            final(self).started(),
            r.0 == seg_end(old(self).index(), old(self).level()),
            r.1 == old(self).color1(),
            r.0 == ONE ==> r.1 == old(self).color_end(),
            final(self).done() == (r.0 == ONE),
            (final(self).index(), final(self).level()) == coalesce(
                old(self).index() + 1,
                old(self).level(),
            ),
            final(self).color0() == old(self).color1(),
            final(self).color_end() == old(self).color_end(),
            final(self).pending() ==> final(self).color1() == old(self).color1(),
            !final(self).pending() ==> final(self).color1() == old(self).color_end(),
            seg_start(final(self).index(), final(self).level()) == r.0,
            final(self).level() == 0 || final(self).index() % 2 == 1,
            final(self).pending() == (seg_end(final(self).index(), final(self).level()) < ONE
                && !final(self).done()),
            forall|flat: spec_fn(int, nat) -> bool|
                flat(old(self).index(), old(self).level()) || old(self).level() == MAX_DEPTH
                    ==> #[trigger] old(self).schedule(flat) == seq![
                    (old(self).index(), old(self).level()),
                ] + final(self).schedule(flat),
    {
        proof {
            lemma_seg_in_range(self.t0 as int, self.depth as nat);
            lemma_end_product(self.t0, self.dt, self.depth);
        }
        let ghost prev = *self;
        let t1 = (self.t0 + 1) * self.dt;
        let mut n = self.t0 + 1;
        let mut dt = self.dt;
        let mut depth = self.depth;
        while depth > 0 && n % 2 == 0
            invariant
                depth <= prev.depth <= MAX_DEPTH,
                dt == span(depth as nat),
                coalesce(n as int, depth as nat) == coalesce(prev.t0 + 1, prev.depth as nat),
                seg_start(n as int, depth as nat) == t1,
                1 <= n,
            decreases depth,
        {
            proof {
                lemma_span_halves((depth - 1) as nat);
                lemma_two_pow_pos((depth - 1) as nat);
                lemma_seg_in_range(0, (depth - 1) as nat);
                assert(seg_start(n as int / 2, (depth - 1) as nat) == seg_start(n as int, depth as nat))
                    by (nonlinear_arith)
                    requires
                        n % 2 == 0,
                        seg_start(n as int / 2, (depth - 1) as nat) == (n / 2) * span(
                            (depth - 1) as nat,
                        ),
                        span((depth - 1) as nat) == 2 * span(depth as nat),
                        seg_start(n as int, depth as nat) == n * span(depth as nat),
                ;
            }
            n = n / 2;
            dt = dt * 2;
            depth = depth - 1;
        }
        assert(coalesce(n as int, depth as nat) == (n as int, depth as nat));
        let ghost start_next = seg_start(n as int, depth as nat);
        self.target0 = self.target1;
        self.t0 = n;
        self.dt = dt;
        self.depth = depth;
        if t1 == ONE {
            proof {
                lemma_one();
                lemma_last_index(prev.t0 as int, prev.depth as nat);
                lemma_tail_last(|a: int, k: nat| true, prev.t0 as int, prev.depth as nat);
            }
            self.target1 = self.end_color;
            self.pending = false;
            proof {
                assert forall|flat: spec_fn(int, nat) -> bool|
                    flat(prev.t0 as int, prev.depth as nat) || prev.depth == MAX_DEPTH
                        implies #[trigger] prev.schedule(flat) == seq![
                    (prev.t0 as int, prev.depth as nat),
                ] + self.schedule(flat) by {
                    lemma_tail_last(flat, prev.t0 as int, prev.depth as nat);
                    assert(prev.schedule(flat) =~= seq![(prev.t0 as int, prev.depth as nat)]);
                    assert(self.schedule(flat) =~= seq![]);
                }
            }
        } else {
            proof {
                lemma_last_index(prev.t0 as int, prev.depth as nat);
                lemma_tail_next(|a: int, k: nat| true, prev.t0 as int, prev.depth as nat);
                lemma_seg_in_range(n as int, depth as nat);
            }
            assert(seg_end(n as int, depth as nat) == t1 + dt) by (nonlinear_arith)
                requires
                    seg_start(n as int, depth as nat) == t1,
                    seg_start(n as int, depth as nat) == n * span(depth as nat),
                    seg_end(n as int, depth as nat) == (n + 1) * span(depth as nat),
                    dt == span(depth as nat),
            ;
            let next_end = t1 + dt;
            if next_end < ONE {
                self.pending = true;
            } else {
                self.target1 = self.end_color;
                self.pending = false;
            }
            proof {
                assert forall|flat: spec_fn(int, nat) -> bool|
                    flat(prev.t0 as int, prev.depth as nat) || prev.depth == MAX_DEPTH
                        implies #[trigger] prev.schedule(flat) == seq![
                    (prev.t0 as int, prev.depth as nat),
                ] + self.schedule(flat) by {
                    lemma_tail_next(flat, prev.t0 as int, prev.depth as nat);
                    assert(prev.schedule(flat) =~= seq![(prev.t0 as int, prev.depth as nat)]
                        + self.schedule(flat));
                }
            }
        }
        (t1, self.target0)
    }

    /// Produces the next stop. Colors are evaluated with `eval` at a parameter
    /// in units of `1 / ONE`; `flat(mid, target0, target1)` says whether the
    /// color `mid` at the middle of a segment lies within tolerance of the
    /// midpoint of the colors at its ends. `None` once every stop is out.
    ///
    /// From the current segment, halves are taken leftwards while `flat`
    /// rejects them; the first accepted one (or the one at `MAX_DEPTH`) ends at
    /// the returned stop. For every verdict `fl` that agrees with those answers,
    /// the stop closes the first segment of the schedule and the rest remains.
    pub fn next<E, F>(&mut self, eval: &E, flat: &F) -> (r: Option<(u32, C)>) where
        E: Fn(u32) -> C,
        F: Fn(C, C, C) -> bool,

        requires
            old(self).wf(),
            forall|p: u32| #[trigger] eval.requires((p,)),
            forall|m: C, a: C, b: C| #[trigger] flat.requires((m, a, b)),
        ensures
            final(self).wf(),
            final(self).started(),
            final(self).color_end() == old(self).color_end(),
            r is None <==> old(self).done(),
            old(self).done() ==> *final(self) == *old(self),
            !old(self).started() ==> {
                &&& r == Some((0u32, old(self).color0()))
                &&& final(self).index() == 0 && final(self).level() == 0
                &&& !final(self).pending()
                &&& final(self).color0() == old(self).color0()
                &&& final(self).color1() == old(self).color1()
                &&& forall|fl: spec_fn(int, nat) -> bool| #[trigger]
                    final(self).schedule(fl) == old(self).schedule(fl)
            },
            old(self).started() && !old(self).done() ==> ({
                let (p, c) = r->0;
                let s = seg_start(old(self).index(), old(self).level());
                &&& s < p <= ONE
                &&& p == seg_start(final(self).index(), final(self).level())
                &&& final(self).level() == 0 || final(self).index() % 2 == 1
                &&& final(self).done() == (p == ONE)
                &&& (p == ONE ==> c == old(self).color_end())
                &&& final(self).color0() == c
                &&& (p - s == 1 || exists|m: C|
                    eval.ensures((((s + p) / 2) as u32,), m) && #[trigger] flat.ensures(
                        (m, old(self).color0(), c),
                        true,
                    ))
                &&& forall|i: nat|
                    old(self).level() <= i <= MAX_DEPTH && span(i) > p - s ==> #[trigger] rejected(
                        eval,
                        flat,
                        s,
                        i,
                        old(self).color0(),
                    )
                &&& forall|fl: spec_fn(int, nat) -> bool|
                    (forall|i: nat|
                        old(self).level() <= i <= MAX_DEPTH && span(i) > p - s ==> !#[trigger] fl(
                            descendant(old(self).index(), old(self).level(), i),
                            i,
                        )) && (forall|i: nat|
                        old(self).level() <= i < MAX_DEPTH && span(i) == p - s ==> #[trigger] fl(
                            descendant(old(self).index(), old(self).level(), i),
                            i,
                        )) ==> {
                        &&& #[trigger] old(self).schedule(fl).len() > 0
                        &&& seg_end(old(self).schedule(fl)[0].0, old(self).schedule(fl)[0].1) == p
                        &&& final(self).schedule(fl) == old(self).schedule(fl).drop_first()
                    }
            }),
    {
        if !self.started {
            return Some(self.start());
        }
        if self.t0 == 1 && self.depth == 0 {
            return None;
        }
        let ghost begin = seg_start(self.t0 as int, self.depth as nat);
        let ghost end_color = self.end_color;
        let ghost first = *self;
        proof {
            lemma_descendant_step(first.t0 as int, first.depth as nat, first.depth as nat);
        }
        loop
            invariant
                self.wf(),
                self.started(),
                !self.done(),
                self.color_end() == end_color,
                self.color0() == first.color0(),
                seg_start(self.index(), self.level()) == begin,
                first == *old(self),
                end_color == first.color_end(),
                begin == seg_start(first.index(), first.level()),
                first.wf() && first.started() && !first.done(),
                first.level() <= self.level(),
                self.index() == descendant(first.index(), first.level(), self.level()),
                forall|i: nat|
                    first.level() <= i < self.level() ==> #[trigger] rejected(
                        eval,
                        flat,
                        begin,
                        i,
                        first.color0(),
                    ),
                forall|fl: spec_fn(int, nat) -> bool|
                    (forall|i: nat|
                        first.level() <= i < self.level() ==> !#[trigger] fl(
                            descendant(first.index(), first.level(), i),
                            i,
                        )) ==> #[trigger] first.schedule(fl) == self.schedule(fl),
                forall|p: u32| #[trigger] eval.requires((p,)),
                forall|m: C, a: C, b: C| #[trigger] flat.requires((m, a, b)),
            decreases 2 * (MAX_DEPTH - self.level()) + (if self.pending() {
                1int
            } else {
                0int
            }),
        {
            match self.request() {
                Request::Fetch(p) => {
                    let c = eval(p);
                    self.supply(c);
                },
                Request::Probe(m) => {
                    let c = eval(m);
                    if flat(c, self.target0, self.target1) {
                        proof {
                            lemma_seg_in_range(self.t0 as int, self.depth as nat);
                            lemma_span_halves(self.depth as nat);
                            lemma_children(self.t0 as int, self.depth as nat);
                        }
                        let ghost here = *self;
                        let r = self.accept();
                        proof {
                            lemma_accept_schedule(first, here, *self, r.0 as int);
                            let s0 = begin;
                            let p0 = r.0 as int;
                            assert((s0 + p0) / 2 == s0 + span(here.level() + 1));
                            assert(eval.ensures((m,), c));
                            assert(flat.ensures((c, first.color0(), r.1), true));
                            assert forall|i: nat|
                                first.level() <= i <= MAX_DEPTH && span(i) > p0 - s0
                                implies #[trigger] rejected(eval, flat, s0, i, first.color0()) by {
                                lemma_span_order(i, here.level());
                            }
                        }
                        return Some(r);
                    }
                    proof {
                        lemma_children(self.t0 as int, self.depth as nat);
                        lemma_descendant_step(
                            first.t0 as int,
                            first.depth as nat,
                            self.depth as nat,
                        );
                    }
                    let ghost here = *self;
                    self.reject(c);
                    proof {
                        assert(flat.ensures((c, first.color0(), here.color1()), false));
                        assert forall|i: nat| first.level() <= i < self.level() implies #[trigger] rejected(
                            eval,
                            flat,
                            begin,
                            i,
                            first.color0(),
                        ) by {
                            if i == here.level() {
                                assert(eval.ensures((midpoint_at(begin, i) as u32,), c));
                                assert(flat.ensures((c, first.color0(), here.color1()), false));
                            }
                        }
                        assert forall|fl: spec_fn(int, nat) -> bool|
                            (forall|i: nat|
                                first.level() <= i < self.level() ==> !#[trigger] fl(
                                    descendant(first.index(), first.level(), i),
                                    i,
                                )) implies #[trigger] first.schedule(fl) == self.schedule(fl) by {
                            assert(!fl(
                                descendant(first.index(), first.level(), here.level()),
                                here.level(),
                            ));
                            assert(first.schedule(fl) == here.schedule(fl));
                        }
                    }
                },
                _ => {
                    proof {
                        lemma_seg_in_range(self.t0 as int, self.depth as nat);
                        lemma_one();
                    }
                    let ghost here = *self;
                    let r = self.accept();
                    proof {
                        lemma_accept_schedule(first, here, *self, r.0 as int);
                        let s0 = begin;
                        let p0 = r.0 as int;
                        assert(two_pow(0) == 1);
                        assert(p0 - s0 == 1);
                        assert forall|i: nat|
                            first.level() <= i <= MAX_DEPTH && span(i) > p0 - s0
                            implies #[trigger] rejected(eval, flat, s0, i, first.color0()) by {
                            lemma_span_order(i, here.level());
                            assert(i < here.level());
                            assert(midpoint_at(begin, i) == midpoint_at(s0, i));
                        }
                    }
                    return Some(r);
                },
            }
        }
    }
}

} // verus!
