//! The mathematical model of adaptive bisection.
//!
//! Parameters are fixed-point values in units of `1 / ONE`. A segment is named
//! by its depth `k` and index `a`: it covers `[a * span(k), (a + 1) * span(k)]`.
//! Given a verdict `flat(a, k)` on each segment, bisection accepts a segment
//! that is flat (or at `MAX_DEPTH`) and otherwise splits it in two; the leaves,
//! read left to right, are the segments between consecutive stops.
use vstd::prelude::*;

verus! {

/// Deepest subdivision level. A segment at this depth is accepted without
/// probing, which bounds the work for every tolerance, zero included.
pub const MAX_DEPTH: u32 = 24;

/// The parameter 1.0, in fixed point with `MAX_DEPTH` fractional bits.
pub const ONE: u32 = 16777216;

pub open spec fn two_pow(k: nat) -> nat
    decreases k,
{
    if k == 0 {
        1
    } else {
        2 * two_pow((k - 1) as nat)
    }
}

/// Width, in units of `1 / ONE`, of a segment at depth `k`.
pub open spec fn span(k: nat) -> nat {
    two_pow((MAX_DEPTH - k) as nat)
}

pub open spec fn seg_start(a: int, k: nat) -> int {
    a * span(k)
}

pub open spec fn seg_end(a: int, k: nat) -> int {
    (a + 1) * span(k)
}

/// Index, at depth `i`, of the leftmost segment inside segment `(a, k)`.
pub open spec fn descendant(a: int, k: nat, i: nat) -> int {
    a * two_pow((i - k) as nat)
}

/// Middle of the segment at depth `i` that starts at `s`.
pub open spec fn midpoint_at(s: int, i: nat) -> int {
    s + span(i + 1)
}

/// The accepted segments inside segment `(a, k)`, left to right.
pub open spec fn leaves(flat: spec_fn(int, nat) -> bool, a: int, k: nat) -> Seq<(int, nat)>
    decreases MAX_DEPTH - k,
{
    if k >= MAX_DEPTH || flat(a, k) {
        seq![(a, k)]
    } else {
        leaves(flat, 2 * a, k + 1) + leaves(flat, 2 * a + 1, k + 1)
    }
}

/// The accepted segments of the whole interval that lie right of segment `(a, k)`.
pub open spec fn tail(flat: spec_fn(int, nat) -> bool, a: int, k: nat) -> Seq<(int, nat)>
    decreases k,
{
    if k == 0 {
        seq![]
    } else if a % 2 == 0 {
        leaves(flat, a + 1, k) + tail(flat, a / 2, (k - 1) as nat)
    } else {
        tail(flat, a / 2, (k - 1) as nat)
    }
}

/// The segment that starts at `n * span(k)`, grown by dropping trailing zero bits
/// of `n` while a level remains.
pub open spec fn coalesce(n: int, k: nat) -> (int, nat)
    decreases k,
{
    if k == 0 || n % 2 != 0 {
        (n, k)
    } else {
        coalesce(n / 2, (k - 1) as nat)
    }
}

/// The stop parameters that bisection under `flat` emits: zero, then the end
/// of each accepted segment.
pub open spec fn stops(flat: spec_fn(int, nat) -> bool) -> Seq<int> {
    seq![0int] + leaves(flat, 0, 0).map_values(|l: (int, nat)| seg_end(l.0, l.1))
}

/// Consecutive segments of `s` meet: each ends where the next starts.
pub open spec fn chained(s: Seq<(int, nat)>) -> bool {
    forall|i: int|
        0 <= i < s.len() - 1 ==> #[trigger] seg_end(s[i].0, s[i].1) == seg_start(
            s[i + 1].0,
            s[i + 1].1,
        )
}

pub proof fn lemma_one()
    ensures
        span(0) == ONE,
        two_pow(MAX_DEPTH as nat) == ONE,
{
    reveal_with_fuel(two_pow, 25);
}

pub proof fn lemma_two_pow_pos(k: nat)
    ensures
        two_pow(k) >= 1,
    decreases k,
{
    if k > 0 {
        lemma_two_pow_pos((k - 1) as nat);
    }
}

pub proof fn lemma_span_halves(k: nat)
    requires
        k < MAX_DEPTH,
    ensures
        span(k) == 2 * span(k + 1),
        span(k + 1) >= 1,
{
    assert((MAX_DEPTH - k) as nat - 1 == (MAX_DEPTH - (k + 1)) as nat);
    lemma_two_pow_pos((MAX_DEPTH - (k + 1)) as nat);
}

/// The children of a segment share its start, its end, and meet at its middle.
pub proof fn lemma_children(a: int, k: nat)
    requires
        k < MAX_DEPTH,
    ensures
        seg_start(2 * a, k + 1) == seg_start(a, k),
        seg_end(2 * a, k + 1) == seg_start(2 * a + 1, k + 1),
        seg_end(2 * a + 1, k + 1) == seg_end(a, k),
        seg_start(a, k) < seg_end(2 * a, k + 1) < seg_end(a, k),
{
    lemma_span_halves(k);
    let s = span(k + 1) as int;
    assert(seg_start(2 * a, k + 1) == seg_start(a, k)) by (nonlinear_arith)
        requires
            seg_start(2 * a, k + 1) == (2 * a) * s,
            seg_start(a, k) == a * (2 * s),
    ;
    assert(seg_end(2 * a + 1, k + 1) == seg_end(a, k)) by (nonlinear_arith)
        requires
            seg_end(2 * a + 1, k + 1) == (2 * a + 2) * s,
            seg_end(a, k) == (a + 1) * (2 * s),
    ;
    assert(seg_end(2 * a, k + 1) == (2 * a + 1) * s);
    assert(seg_start(2 * a + 1, k + 1) == (2 * a + 1) * s);
    assert(seg_start(a, k) < seg_end(2 * a, k + 1) < seg_end(a, k)) by (nonlinear_arith)
        requires
            seg_start(a, k) == (2 * a) * s,
            seg_end(2 * a, k + 1) == (2 * a + 1) * s,
            seg_end(a, k) == (2 * a + 2) * s,
            s >= 1,
    ;
}

/// The accepted segments inside `(a, k)` tile it from its start to its end, and
/// each was judged flat or lies at the deepest level.
pub proof fn lemma_leaves_tile(flat: spec_fn(int, nat) -> bool, a: int, k: nat)
    requires
        k <= MAX_DEPTH,
    ensures
        leaves(flat, a, k).len() >= 1,
        seg_start(leaves(flat, a, k)[0].0, leaves(flat, a, k)[0].1) == seg_start(a, k),
        seg_end(leaves(flat, a, k).last().0, leaves(flat, a, k).last().1) == seg_end(a, k),
        chained(leaves(flat, a, k)),
        forall|i: int|
            0 <= i < leaves(flat, a, k).len() ==> {
                let l = #[trigger] leaves(flat, a, k)[i];
                &&& l.1 <= MAX_DEPTH
                &&& (flat(l.0, l.1) || l.1 == MAX_DEPTH)
                &&& seg_start(l.0, l.1) < seg_end(l.0, l.1)
            },
    decreases MAX_DEPTH - k,
{
    let s = leaves(flat, a, k);
    if k >= MAX_DEPTH || flat(a, k) {
        lemma_two_pow_pos((MAX_DEPTH - k) as nat);
        assert(seg_start(a, k) < seg_end(a, k)) by (nonlinear_arith)
            requires
                seg_start(a, k) == a * span(k),
                seg_end(a, k) == (a + 1) * span(k),
                span(k) >= 1,
        ;
    } else {
        lemma_leaves_tile(flat, 2 * a, k + 1);
        lemma_leaves_tile(flat, 2 * a + 1, k + 1);
        lemma_children(a, k);
        let l = leaves(flat, 2 * a, k + 1);
        let r = leaves(flat, 2 * a + 1, k + 1);
        assert(s == l + r);
        assert forall|i: int| 0 <= i < s.len() - 1 implies #[trigger] seg_end(s[i].0, s[i].1)
            == seg_start(s[i + 1].0, s[i + 1].1) by {
            if i < l.len() - 1 {
                assert(s[i] == l[i] && s[i + 1] == l[i + 1]);
                assert(seg_end(l[i].0, l[i].1) == seg_start(l[i + 1].0, l[i + 1].1));
            } else if i == l.len() - 1 {
                assert(s[i] == l.last() && s[i + 1] == r[0]);
            } else {
                let j = i - l.len();
                assert(s[i] == r[j] && s[i + 1] == r[j + 1]);
                assert(seg_end(r[j].0, r[j].1) == seg_start(r[j + 1].0, r[j + 1].1));
            }
        }
        assert forall|i: int| 0 <= i < s.len() implies {
            let x = #[trigger] s[i];
            &&& x.1 <= MAX_DEPTH
            &&& (flat(x.0, x.1) || x.1 == MAX_DEPTH)
            &&& seg_start(x.0, x.1) < seg_end(x.0, x.1)
        } by {
            if i < l.len() {
                assert(s[i] == l[i]);
            } else {
                assert(s[i] == r[i - l.len()]);
            }
        }
        assert(s.last() == r.last());
    }
}

/// Splitting a segment that is not flat leaves the segments still to come unchanged.
pub proof fn lemma_tail_split(flat: spec_fn(int, nat) -> bool, a: int, k: nat)
    requires
        k < MAX_DEPTH,
        !flat(a, k),
    ensures
        leaves(flat, a, k) + tail(flat, a, k) == leaves(flat, 2 * a, k + 1) + tail(
            flat,
            2 * a,
            k + 1,
        ),
{
    assert((2 * a) % 2 == 0 && (2 * a) / 2 == a);
    assert(tail(flat, 2 * a, k + 1) == leaves(flat, 2 * a + 1, k + 1) + tail(flat, a, k));
    assert(leaves(flat, a, k) + tail(flat, a, k) =~= leaves(flat, 2 * a, k + 1) + tail(
        flat,
        2 * a,
        k + 1,
    ));
}

/// After a segment that is not the last, the segments to come start with the
/// coalesced successor.
pub proof fn lemma_tail_next(flat: spec_fn(int, nat) -> bool, a: int, k: nat)
    requires
        0 <= a,
        a + 1 < two_pow(k),
    ensures
        ({
            let c = coalesce(a + 1, k);
            &&& tail(flat, a, k) == leaves(flat, c.0, c.1) + tail(flat, c.0, c.1)
            &&& 0 <= c.0 < two_pow(c.1)
            &&& c.1 <= k
        }),
    decreases k,
{
    if k == 0 {
    } else if a % 2 == 0 {
        assert((a + 1) % 2 != 0 && (a + 1) / 2 == a / 2);
        assert(coalesce(a + 1, k) == (a + 1, k));
    } else {
        let b = a / 2;
        assert((a + 1) % 2 == 0 && (a + 1) / 2 == b + 1);
        assert(coalesce(a + 1, k) == coalesce(b + 1, (k - 1) as nat));
        lemma_tail_next(flat, b, (k - 1) as nat);
    }
}

/// After the last segment nothing remains, and coalescing reaches the whole interval.
pub proof fn lemma_tail_last(flat: spec_fn(int, nat) -> bool, a: int, k: nat)
    requires
        0 <= a,
        a + 1 == two_pow(k),
    ensures
        tail(flat, a, k) == Seq::<(int, nat)>::empty(),
        coalesce(a + 1, k) == (1int, 0nat),
    decreases k,
{
    if k > 0 {
        lemma_two_pow_pos((k - 1) as nat);
        assert((a + 1) % 2 == 0 && a % 2 == 1 && (a + 1) / 2 == a / 2 + 1);
        lemma_tail_last(flat, a / 2, (k - 1) as nat);
    }
}

/// A segment index below `two_pow(k)` lies inside `[0, ONE]`.
pub proof fn lemma_seg_in_range(a: int, k: nat)
    requires
        k <= MAX_DEPTH,
        0 <= a < two_pow(k),
    ensures
        0 <= seg_start(a, k) < seg_end(a, k) <= ONE,
        a < ONE,
        seg_end(a, k) == seg_start(a, k) + span(k),
{
    lemma_one();
    lemma_two_pow_pos((MAX_DEPTH - k) as nat);
    lemma_two_pow_mul(k, (MAX_DEPTH - k) as nat);
    assert(0 <= seg_start(a, k) < seg_end(a, k) <= ONE) by (nonlinear_arith)
        requires
            0 <= a < two_pow(k),
            seg_start(a, k) == a * span(k),
            seg_end(a, k) == (a + 1) * span(k),
            span(k) >= 1,
            two_pow(k) * span(k) == ONE,
    ;
    assert(a < ONE && seg_end(a, k) == seg_start(a, k) + span(k)) by (nonlinear_arith)
        requires
            0 <= a,
            seg_start(a, k) < ONE,
            seg_start(a, k) == a * span(k),
            seg_end(a, k) == (a + 1) * span(k),
            span(k) >= 1,
    ;
}

pub proof fn lemma_two_pow_lt(x: nat, y: nat)
    requires
        x < y,
    ensures
        two_pow(x) < two_pow(y),
    decreases y,
{
    lemma_two_pow_pos(x);
    if x + 1 < y {
        lemma_two_pow_lt(x, (y - 1) as nat);
    }
}

/// Deeper segments are narrower.
pub proof fn lemma_span_order(i: nat, j: nat)
    requires
        i <= MAX_DEPTH,
        j <= MAX_DEPTH,
    ensures
        (span(i) > span(j)) == (i < j),
        (span(i) == span(j)) == (i == j),
{
    if i < j {
        lemma_two_pow_lt((MAX_DEPTH - j) as nat, (MAX_DEPTH - i) as nat);
    } else if j < i {
        lemma_two_pow_lt((MAX_DEPTH - i) as nat, (MAX_DEPTH - j) as nat);
    }
}

/// The leftmost segment one level further down is the left child.
pub proof fn lemma_descendant_step(a: int, k: nat, i: nat)
    requires
        k <= i,
    ensures
        descendant(a, k, i + 1) == 2 * descendant(a, k, i),
        descendant(a, k, k) == a,
{
    assert((k - k) as nat == 0);
    assert(two_pow(0) == 1);
    assert((i + 1 - k) as nat == (i - k) as nat + 1);
    assert(two_pow((i + 1 - k) as nat) == 2 * two_pow((i - k) as nat));
    assert(a * (2 * two_pow((i - k) as nat)) == 2 * (a * two_pow((i - k) as nat)))
        by (nonlinear_arith);
}

/// A segment ends at `ONE` exactly when it is the last one of its depth.
pub proof fn lemma_last_index(a: int, k: nat)
    requires
        k <= MAX_DEPTH,
        0 <= a < two_pow(k),
    ensures
        (seg_end(a, k) == ONE) == (a + 1 == two_pow(k)),
{
    lemma_one();
    lemma_two_pow_pos((MAX_DEPTH - k) as nat);
    lemma_two_pow_mul(k, (MAX_DEPTH - k) as nat);
    assert((seg_end(a, k) == ONE) == (a + 1 == two_pow(k))) by (nonlinear_arith)
        requires
            seg_end(a, k) == (a + 1) * span(k),
            span(k) >= 1,
            two_pow(k) * span(k) == ONE,
    ;
}

pub proof fn lemma_two_pow_mul(i: nat, j: nat)
    ensures
        two_pow(i) * two_pow(j) == two_pow(i + j),
    decreases i,
{
    if i > 0 {
        let h = (i - 1) as nat;
        lemma_two_pow_mul(h, j);
        assert(h + j + 1 == i + j);
        assert(two_pow(i + j) == 2 * two_pow(h + j));
        assert(two_pow(i) * two_pow(j) == 2 * (two_pow(h) * two_pow(j))) by (nonlinear_arith)
            requires
                two_pow(i) == 2 * two_pow(h),
        ;
    } else {
        assert(two_pow(i) == 1);
        assert(two_pow(i) * two_pow(j) == two_pow(j));
        assert(i + j == j);
    }
}

/// The first stop is at parameter 0 and the last at `ONE`.
pub proof fn lemma_stops_endpoints(flat: spec_fn(int, nat) -> bool)
    ensures
        stops(flat).len() >= 2,
        stops(flat)[0] == 0,
        stops(flat).last() == ONE,
{
    lemma_one();
    lemma_leaves_tile(flat, 0, 0);
    let l = leaves(flat, 0, 0);
    assert(stops(flat).last() == seg_end(l.last().0, l.last().1));
}

/// Between consecutive stops lies exactly one accepted segment, and each
/// accepted segment was judged flat unless it lies at `MAX_DEPTH`. When every
/// deepest segment is judged flat as well, every segment between stops is flat.
pub proof fn lemma_stops_segments(flat: spec_fn(int, nat) -> bool)
    ensures
        stops(flat).len() == leaves(flat, 0, 0).len() + 1,
        forall|i: int|
            0 <= i < leaves(flat, 0, 0).len() ==> {
                let l = #[trigger] leaves(flat, 0, 0)[i];
                &&& stops(flat)[i] == seg_start(l.0, l.1)
                &&& stops(flat)[i + 1] == seg_end(l.0, l.1)
                &&& (flat(l.0, l.1) || l.1 == MAX_DEPTH)
            },
        (forall|a: int| #[trigger] flat(a, MAX_DEPTH as nat)) ==> forall|i: int|
            0 <= i < leaves(flat, 0, 0).len() ==> flat(
                #[trigger] leaves(flat, 0, 0)[i].0,
                leaves(flat, 0, 0)[i].1,
            ),
{
    lemma_leaves_tile(flat, 0, 0);
    let l = leaves(flat, 0, 0);
    let s = stops(flat);
    assert forall|i: int| 0 <= i < l.len() implies {
        let x = #[trigger] l[i];
        &&& s[i] == seg_start(x.0, x.1)
        &&& s[i + 1] == seg_end(x.0, x.1)
        &&& (flat(x.0, x.1) || x.1 == MAX_DEPTH)
    } by {
        assert(s[i + 1] == seg_end(l[i].0, l[i].1));
        if i > 0 {
            assert(s[i] == seg_end(l[i - 1].0, l[i - 1].1));
            assert(seg_end(l[i - 1].0, l[i - 1].1) == seg_start(l[i].0, l[i].1));
        }
    }
}

/// Stop parameters strictly increase and all lie in `[0, ONE]`.
pub proof fn lemma_stops_increasing(flat: spec_fn(int, nat) -> bool)
    ensures
        forall|i: int, j: int| 0 <= i < j < stops(flat).len() ==> stops(flat)[i] < stops(flat)[j],
        forall|i: int| 0 <= i < stops(flat).len() ==> 0 <= #[trigger] stops(flat)[i] <= ONE,
{
    lemma_leaves_tile(flat, 0, 0);
    lemma_stops_segments(flat);
    lemma_stops_endpoints(flat);
    let l = leaves(flat, 0, 0);
    let s = stops(flat);
    assert forall|i: int| 0 <= i < s.len() - 1 implies #[trigger] s[i] < s[i + 1] by {
        let x = l[i];
        assert(seg_start(x.0, x.1) < seg_end(x.0, x.1));
    }
    assert forall|i: int, j: int| 0 <= i < j < s.len() implies s[i] < s[j] by {
        lemma_increasing_run(s, i, j);
    }
    assert forall|i: int| 0 <= i < s.len() implies 0 <= #[trigger] s[i] <= ONE by {
        if 0 < i {
            lemma_increasing_run(s, 0, i);
        }
        if i < s.len() - 1 {
            lemma_increasing_run(s, i, s.len() - 1);
        }
    }
}

proof fn lemma_increasing_run(s: Seq<int>, i: int, j: int)
    requires
        0 <= i < j < s.len(),
        forall|n: int| 0 <= n < s.len() - 1 ==> #[trigger] s[n] < s[n + 1],
    ensures
        s[i] < s[j],
    decreases j - i,
{
    if i + 1 < j {
        lemma_increasing_run(s, i + 1, j);
        assert(s[i] < s[i + 1]);
    } else {
        assert(s[i] < s[i + 1]);
    }
}

/// However the segments are judged, at most `ONE + 1` stops are emitted.
pub proof fn lemma_stops_bounded(flat: spec_fn(int, nat) -> bool)
    ensures
        stops(flat).len() <= ONE + 1,
{
    lemma_stops_increasing(flat);
    lemma_stops_endpoints(flat);
    let s = stops(flat);
    lemma_increasing_at_least_index(s, s.len() - 1);
}

proof fn lemma_increasing_at_least_index(s: Seq<int>, i: int)
    requires
        0 <= i < s.len(),
        s[0] >= 0,
        forall|a: int, b: int| 0 <= a < b < s.len() ==> s[a] < s[b],
    ensures
        s[i] >= i,
    decreases i,
{
    if i > 0 {
        lemma_increasing_at_least_index(s, i - 1);
        assert(s[i - 1] < s[i]);
    }
}

/// The stops depend on nothing but the verdicts: equal verdicts on every
/// segment give the same stops.
pub proof fn lemma_stops_deterministic(
    first: spec_fn(int, nat) -> bool,
    second: spec_fn(int, nat) -> bool,
)
    requires
        forall|a: int, k: nat| #[trigger] first(a, k) == second(a, k),
    ensures
        stops(first) == stops(second),
{
    assert(first =~= second);
}

/// A stricter judge never yields fewer stops. A lower tolerance is such a
/// judge: a midpoint error within the lower tolerance is within the higher one.
pub proof fn lemma_stricter_more_stops(
    loose: spec_fn(int, nat) -> bool,
    strict: spec_fn(int, nat) -> bool,
)
    requires
        forall|a: int, k: nat| #[trigger] strict(a, k) ==> loose(a, k),
    ensures
        stops(loose).len() <= stops(strict).len(),
{
    lemma_stricter_more_leaves(loose, strict, 0, 0);
}

proof fn lemma_stricter_more_leaves(
    loose: spec_fn(int, nat) -> bool,
    strict: spec_fn(int, nat) -> bool,
    a: int,
    k: nat,
)
    requires
        k <= MAX_DEPTH,
        forall|a: int, k: nat| #[trigger] strict(a, k) ==> loose(a, k),
    ensures
        leaves(loose, a, k).len() <= leaves(strict, a, k).len(),
    decreases MAX_DEPTH - k,
{
    if k < MAX_DEPTH && !strict(a, k) {
        lemma_stricter_more_leaves(loose, strict, 2 * a, k + 1);
        lemma_stricter_more_leaves(loose, strict, 2 * a + 1, k + 1);
        lemma_leaves_tile(strict, 2 * a, k + 1);
        lemma_leaves_tile(strict, 2 * a + 1, k + 1);
    }
}

} // verus!
