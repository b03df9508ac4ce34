//! Laws of the monitor reduction: what holds across frames, chunks and inputs.

use vstd::prelude::*;

use crate::config::MonitorMode;
use crate::processors::monitor::{
    frame_samples, is_channel_rms, is_peak, is_signed_sum, reduced_by, rms_from_scale,
    running_scale, scale_normalizes, scale_of, scale_passes_through, scaled_square_sum,
    stopped_at_nan,
};
use crate::sample::MonitorSample;

verus! {

/// The reduction of one frame depends only on the selected samples at that frame:
/// channels outside the selection, other frames, and the previous scratch contents
/// take no part in it.
pub proof fn law_frame_locality<S: MonitorSample>(
    mode: MonitorMode,
    a: Seq<Vec<S>>,
    frame_a: int,
    b: Seq<Vec<S>>,
    frame_b: int,
    channels: Seq<usize>,
    r: S,
)
    requires
        forall|i: int|
            0 <= i < channels.len() ==> a[channels[i] as int]@[frame_a] == b[channels[i]
                as int]@[frame_b],
    ensures
        reduced_by(mode, frame_samples(a, channels, frame_a), r) == reduced_by(
            mode,
            frame_samples(b, channels, frame_b),
            r,
        ),
{
    assert(frame_samples(a, channels, frame_a) =~= frame_samples(b, channels, frame_b));
}

/// Chunk boundaries do not change the result: when every selected waveform of
/// `chunk` holds the frames of `stream` from `start` on, frame `f` of the chunk
/// reduces exactly as frame `start + f` of the stream, for every mode.
pub proof fn law_chunking<S: MonitorSample>(
    mode: MonitorMode,
    stream: Seq<Vec<S>>,
    chunk: Seq<Vec<S>>,
    channels: Seq<usize>,
    start: int,
    f: int,
    r: S,
)
    requires
        0 <= start,
        0 <= f,
        forall|i: int|
            0 <= i < channels.len() ==> {
                let c = #[trigger] channels[i] as int;
                &&& f < chunk[c]@.len()
                &&& start + chunk[c]@.len() <= stream[c]@.len()
                &&& chunk[c]@ == stream[c]@.subrange(start, start + chunk[c]@.len())
            },
    ensures
        reduced_by(mode, frame_samples(chunk, channels, f), r) == reduced_by(
            mode,
            frame_samples(stream, channels, start + f),
            r,
        ),
{
    assert forall|i: int| 0 <= i < channels.len() implies chunk[channels[i] as int]@[f]
        == stream[channels[i] as int]@[start + f] by {
        let c = channels[i] as int;
        assert(chunk[c]@[f] == stream[c]@.subrange(start, start + chunk[c]@.len())[f]);
    }
    law_frame_locality(mode, chunk, f, stream, start + f, channels, r);
}

/// With a single selected entry, Sum reproduces the sample unchanged and Max
/// gives its magnitude.
pub proof fn law_single_entry<S: MonitorSample>(x: S, r: S)
    ensures
        is_signed_sum(seq![x], r) <==> r == x,
        is_peak(seq![x], r) <==> call_ensures(S::abs, (x,), r),
{
}

/// Every operation of the sample type gives one result for given arguments, as
/// IEEE-754 arithmetic does.
pub open spec fn deterministic_arithmetic<S: MonitorSample>() -> bool {
    &&& forall|r1: S, r2: S|
        #![trigger call_ensures(S::zero, (), r1), call_ensures(S::zero, (), r2)]
        call_ensures(S::zero, (), r1) && call_ensures(S::zero, (), r2) ==> r1 == r2
    &&& forall|r1: S, r2: S|
        #![trigger call_ensures(S::one, (), r1), call_ensures(S::one, (), r2)]
        call_ensures(S::one, (), r1) && call_ensures(S::one, (), r2) ==> r1 == r2
    &&& forall|r1: S, r2: S|
        #![trigger call_ensures(S::nan, (), r1), call_ensures(S::nan, (), r2)]
        call_ensures(S::nan, (), r1) && call_ensures(S::nan, (), r2) ==> r1 == r2
    &&& forall|n: usize, r1: S, r2: S|
        #![trigger call_ensures(S::from_count, (n,), r1), call_ensures(S::from_count, (n,), r2)]
        call_ensures(S::from_count, (n,), r1) && call_ensures(S::from_count, (n,), r2) ==> r1 == r2
    &&& forall|a: S, b: S, r1: S, r2: S|
        #![trigger call_ensures(S::plus, (a, b), r1), call_ensures(S::plus, (a, b), r2)]
        call_ensures(S::plus, (a, b), r1) && call_ensures(S::plus, (a, b), r2) ==> r1 == r2
    &&& forall|a: S, b: S, r1: S, r2: S|
        #![trigger call_ensures(S::times, (a, b), r1), call_ensures(S::times, (a, b), r2)]
        call_ensures(S::times, (a, b), r1) && call_ensures(S::times, (a, b), r2) ==> r1 == r2
    &&& forall|a: S, b: S, r1: S, r2: S|
        #![trigger call_ensures(S::divide, (a, b), r1), call_ensures(S::divide, (a, b), r2)]
        call_ensures(S::divide, (a, b), r1) && call_ensures(S::divide, (a, b), r2) ==> r1 == r2
    &&& forall|a: S, b: S, r1: S, r2: S|
        #![trigger call_ensures(S::maximum, (a, b), r1), call_ensures(S::maximum, (a, b), r2)]
        call_ensures(S::maximum, (a, b), r1) && call_ensures(S::maximum, (a, b), r2) ==> r1 == r2
    &&& forall|a: S, b: S, r1: S, r2: S|
        #![trigger call_ensures(S::minimum, (a, b), r1), call_ensures(S::minimum, (a, b), r2)]
        call_ensures(S::minimum, (a, b), r1) && call_ensures(S::minimum, (a, b), r2) ==> r1 == r2
    &&& forall|a: S, r1: S, r2: S|
        #![trigger call_ensures(S::abs, (a,), r1), call_ensures(S::abs, (a,), r2)]
        call_ensures(S::abs, (a,), r1) && call_ensures(S::abs, (a,), r2) ==> r1 == r2
    &&& forall|a: S, r1: S, r2: S|
        #![trigger call_ensures(S::sqrt, (a,), r1), call_ensures(S::sqrt, (a,), r2)]
        call_ensures(S::sqrt, (a,), r1) && call_ensures(S::sqrt, (a,), r2) ==> r1 == r2
    &&& forall|a: S, r1: bool, r2: bool|
        #![trigger call_ensures(S::is_nan, (a,), r1), call_ensures(S::is_nan, (a,), r2)]
        call_ensures(S::is_nan, (a,), r1) && call_ensures(S::is_nan, (a,), r2) ==> r1 == r2
    &&& forall|a: S, r1: bool, r2: bool|
        #![trigger call_ensures(S::is_finite, (a,), r1), call_ensures(S::is_finite, (a,), r2)]
        call_ensures(S::is_finite, (a,), r1) && call_ensures(S::is_finite, (a,), r2) ==> r1 == r2
    &&& forall|a: S, r1: bool, r2: bool|
        #![trigger call_ensures(S::is_zero, (a,), r1), call_ensures(S::is_zero, (a,), r2)]
        call_ensures(S::is_zero, (a,), r1) && call_ensures(S::is_zero, (a,), r2) ==> r1 == r2
}

/// The magnitudes of two frames' selected samples agree entry by entry: whatever
/// `abs` gives for `xs[i]` equals whatever it gives for `ys[i]`.
pub open spec fn agree_in_magnitude<S: MonitorSample>(xs: Seq<S>, ys: Seq<S>) -> bool {
    &&& xs.len() == ys.len()
    &&& forall|i: int, m1: S, m2: S|
        #![trigger call_ensures(S::abs, (xs[i],), m1), call_ensures(S::abs, (ys[i],), m2)]
        0 <= i < xs.len() && call_ensures(S::abs, (xs[i],), m1) && call_ensures(
            S::abs,
            (ys[i],),
            m2,
        ) ==> m1 == m2
}

/// Once divided by the same scale, the selected samples of two frames have equal
/// squares entry by entry.
pub open spec fn agree_in_scaled_squares<S: MonitorSample>(xs: Seq<S>, ys: Seq<S>) -> bool {
    &&& xs.len() == ys.len()
    &&& forall|i: int, s: S, q1: S, sq1: S, q2: S, sq2: S|
        #![trigger call_ensures(S::divide, (xs[i], s), q1), call_ensures(S::times, (q1, q1), sq1), call_ensures(S::divide, (ys[i], s), q2), call_ensures(S::times, (q2, q2), sq2)]
        0 <= i < xs.len() && call_ensures(S::divide, (xs[i], s), q1) && call_ensures(
            S::times,
            (q1, q1),
            sq1,
        ) && call_ensures(S::divide, (ys[i], s), q2) && call_ensures(S::times, (q2, q2), sq2)
            ==> sq1 == sq2
}

proof fn lemma_magnitude_prefix<S: MonitorSample>(xs: Seq<S>, ys: Seq<S>, k: int)
    requires
        agree_in_magnitude(xs, ys),
        0 <= k <= xs.len(),
    ensures
        agree_in_magnitude(xs.take(k), ys.take(k)),
{
    assert forall|i: int, m1: S, m2: S|
        #![trigger call_ensures(S::abs, (xs.take(k)[i],), m1), call_ensures(S::abs, (ys.take(k)[i],), m2)]
        0 <= i < k && call_ensures(S::abs, (xs.take(k)[i],), m1) && call_ensures(
            S::abs,
            (ys.take(k)[i],),
            m2,
        ) implies m1 == m2 by {
        assert(xs.take(k)[i] == xs[i] && ys.take(k)[i] == ys[i]);
        assert(call_ensures(S::abs, (xs[i],), m1) && call_ensures(S::abs, (ys[i],), m2));
    }
}

proof fn lemma_magnitude_symmetric<S: MonitorSample>(xs: Seq<S>, ys: Seq<S>)
    requires
        agree_in_magnitude(xs, ys),
    ensures
        agree_in_magnitude(ys, xs),
{
    assert forall|i: int, m1: S, m2: S|
        #![trigger call_ensures(S::abs, (ys[i],), m1), call_ensures(S::abs, (xs[i],), m2)]
        0 <= i < ys.len() && call_ensures(S::abs, (ys[i],), m1) && call_ensures(
            S::abs,
            (xs[i],),
            m2,
        ) implies m1 == m2 by {
        assert(call_ensures(S::abs, (xs[i],), m2) && call_ensures(S::abs, (ys[i],), m1));
    }
}

proof fn lemma_squares_prefix<S: MonitorSample>(xs: Seq<S>, ys: Seq<S>, k: int)
    requires
        agree_in_scaled_squares(xs, ys),
        0 <= k <= xs.len(),
    ensures
        agree_in_scaled_squares(xs.take(k), ys.take(k)),
{
    assert forall|i: int, s: S, q1: S, sq1: S, q2: S, sq2: S|
        #![trigger call_ensures(S::divide, (xs.take(k)[i], s), q1), call_ensures(S::times, (q1, q1), sq1), call_ensures(S::divide, (ys.take(k)[i], s), q2), call_ensures(S::times, (q2, q2), sq2)]
        0 <= i < k && call_ensures(S::divide, (xs.take(k)[i], s), q1) && call_ensures(
            S::times,
            (q1, q1),
            sq1,
        ) && call_ensures(S::divide, (ys.take(k)[i], s), q2) && call_ensures(
            S::times,
            (q2, q2),
            sq2,
        ) implies sq1 == sq2 by {
        assert(xs.take(k)[i] == xs[i] && ys.take(k)[i] == ys[i]);
        assert(call_ensures(S::divide, (xs[i], s), q1) && call_ensures(S::divide, (ys[i], s), q2));
    }
}

/// A deterministic arithmetic agrees with itself in magnitude and in scaled squares.
proof fn lemma_self_agreement<S: MonitorSample>(xs: Seq<S>)
    requires
        deterministic_arithmetic::<S>(),
    ensures
        agree_in_magnitude(xs, xs),
        agree_in_scaled_squares(xs, xs),
{
    assert forall|i: int, s: S, q1: S, sq1: S, q2: S, sq2: S|
        #![trigger call_ensures(S::divide, (xs[i], s), q1), call_ensures(S::times, (q1, q1), sq1), call_ensures(S::divide, (xs[i], s), q2), call_ensures(S::times, (q2, q2), sq2)]
        0 <= i < xs.len() && call_ensures(S::divide, (xs[i], s), q1) && call_ensures(
            S::times,
            (q1, q1),
            sq1,
        ) && call_ensures(S::divide, (xs[i], s), q2) && call_ensures(S::times, (q2, q2), sq2)
        implies sq1 == sq2 by {
        assert(q1 == q2);
    }
}

proof fn lemma_sum_unique<S: MonitorSample>(xs: Seq<S>, r1: S, r2: S)
    requires
        deterministic_arithmetic::<S>(),
        is_signed_sum(xs, r1),
        is_signed_sum(xs, r2),
    ensures
        r1 == r2,
    decreases xs.len(),
{
    if xs.len() > 1 {
        let m1 = choose|m: S|
            #[trigger] call_ensures(S::plus, (m, xs.last()), r1) && is_signed_sum(xs.drop_last(), m);
        let m2 = choose|m: S|
            #[trigger] call_ensures(S::plus, (m, xs.last()), r2) && is_signed_sum(xs.drop_last(), m);
        lemma_sum_unique(xs.drop_last(), m1, m2);
    }
}

/// Max agrees on two frames whose selected samples agree in magnitude entry by
/// entry, when the arithmetic is deterministic. With `|-x| = |x|`, this covers a
/// frame and its copy with some polarities reversed.
pub proof fn law_peak_sees_only_magnitudes<S: MonitorSample>(xs: Seq<S>, ys: Seq<S>, r1: S, r2: S)
    requires
        deterministic_arithmetic::<S>(),
        agree_in_magnitude(xs, ys),
        is_peak(xs, r1),
        is_peak(ys, r2),
    ensures
        r1 == r2,
    decreases xs.len(),
{
    if xs.len() > 1 {
        let last = xs.len() - 1;
        let (m1, a1) = choose|m: S, a: S|
            #![trigger call_ensures(S::abs, (xs.last(),), a), call_ensures(S::maximum, (m, a), r1)]
            is_peak(xs.drop_last(), m) && call_ensures(S::abs, (xs.last(),), a) && call_ensures(
                S::maximum,
                (m, a),
                r1,
            );
        let (m2, a2) = choose|m: S, a: S|
            #![trigger call_ensures(S::abs, (ys.last(),), a), call_ensures(S::maximum, (m, a), r2)]
            is_peak(ys.drop_last(), m) && call_ensures(S::abs, (ys.last(),), a) && call_ensures(
                S::maximum,
                (m, a),
                r2,
            );
        lemma_magnitude_prefix(xs, ys, last);
        assert(xs.drop_last() == xs.take(last) && ys.drop_last() == ys.take(last));
        law_peak_sees_only_magnitudes(xs.drop_last(), ys.drop_last(), m1, m2);
        assert(xs.last() == xs[last] && ys.last() == ys[last]);
        assert(call_ensures(S::abs, (xs[last],), a1) && call_ensures(S::abs, (ys[last],), a2));
        assert(a1 == a2);
    } else {
        assert(call_ensures(S::abs, (xs[0],), r1) && call_ensures(S::abs, (ys[0],), r2));
    }
}

proof fn lemma_running_scale_prefix<S: MonitorSample>(xs: Seq<S>, s: S, k: int)
    requires
        running_scale(xs, s),
        0 <= k < xs.len(),
    ensures
        exists|p: S, m: S|
            #![trigger running_scale(xs.take(k), p), call_ensures(S::abs, (xs[k],), m)]
            running_scale(xs.take(k), p) && call_ensures(S::abs, (xs[k],), m) && call_ensures(
                S::is_nan,
                (m,),
                false,
            ),
    decreases xs.len(),
{
    let last = xs.len() - 1;
    let (prev, mag) = choose|prev: S, mag: S|
        #![trigger call_ensures(S::abs, (xs.last(),), mag), call_ensures(S::maximum, (prev, mag), s)]
        running_scale(xs.drop_last(), prev) && call_ensures(S::abs, (xs.last(),), mag)
            && call_ensures(S::is_nan, (mag,), false) && call_ensures(S::maximum, (prev, mag), s);
    assert(xs.drop_last() == xs.take(last));
    if k == last {
        assert(running_scale(xs.take(k), prev) && call_ensures(S::abs, (xs[k],), mag));
    } else {
        lemma_running_scale_prefix(xs.drop_last(), prev, k);
        assert(xs.drop_last().take(k) == xs.take(k));
        assert(xs.drop_last()[k] == xs[k]);
    }
}

/// A NaN magnitude at entry `k` of one frame rules out a scale pass of the other
/// frame that goes past entry `k` without meeting a NaN.
proof fn lemma_nan_stops_both<S: MonitorSample>(
    xs: Seq<S>,
    ys: Seq<S>,
    k: int,
    mag: S,
    j: int,
    p: S,
)
    requires
        deterministic_arithmetic::<S>(),
        agree_in_magnitude(xs, ys),
        0 <= k < j <= ys.len(),
        call_ensures(S::abs, (xs[k],), mag),
        call_ensures(S::is_nan, (mag,), true),
    ensures
        !running_scale(ys.take(j), p),
{
    if running_scale(ys.take(j), p) {
        lemma_running_scale_prefix(ys.take(j), p, k);
        assert(ys.take(j)[k] == ys[k]);
        let (p2, m2) = choose|p2: S, m2: S|
            #![trigger running_scale(ys.take(j).take(k), p2), call_ensures(S::abs, (ys.take(j)[k],), m2)]
            running_scale(ys.take(j).take(k), p2) && call_ensures(S::abs, (ys.take(j)[k],), m2)
                && call_ensures(S::is_nan, (m2,), false);
        assert(call_ensures(S::abs, (ys[k],), m2));
        assert(mag == m2);
    }
}

proof fn lemma_running_scale_agrees<S: MonitorSample>(xs: Seq<S>, ys: Seq<S>, s1: S, s2: S)
    requires
        deterministic_arithmetic::<S>(),
        agree_in_magnitude(xs, ys),
        running_scale(xs, s1),
        running_scale(ys, s2),
    ensures
        s1 == s2,
    decreases xs.len(),
{
    if xs.len() > 0 {
        let last = xs.len() - 1;
        let (p1, m1) = choose|prev: S, mag: S|
            #![trigger call_ensures(S::abs, (xs.last(),), mag), call_ensures(S::maximum, (prev, mag), s1)]
            running_scale(xs.drop_last(), prev) && call_ensures(S::abs, (xs.last(),), mag)
                && call_ensures(S::is_nan, (mag,), false) && call_ensures(S::maximum, (prev, mag), s1);
        let (p2, m2) = choose|prev: S, mag: S|
            #![trigger call_ensures(S::abs, (ys.last(),), mag), call_ensures(S::maximum, (prev, mag), s2)]
            running_scale(ys.drop_last(), prev) && call_ensures(S::abs, (ys.last(),), mag)
                && call_ensures(S::is_nan, (mag,), false) && call_ensures(S::maximum, (prev, mag), s2);
        lemma_magnitude_prefix(xs, ys, last);
        assert(xs.drop_last() == xs.take(last) && ys.drop_last() == ys.take(last));
        lemma_running_scale_agrees(xs.drop_last(), ys.drop_last(), p1, p2);
        assert(xs.last() == xs[last] && ys.last() == ys[last]);
        assert(call_ensures(S::abs, (xs[last],), m1) && call_ensures(S::abs, (ys[last],), m2));
        assert(m1 == m2);
    }
}

proof fn lemma_scale_agrees<S: MonitorSample>(xs: Seq<S>, ys: Seq<S>, s1: S, s2: S)
    requires
        deterministic_arithmetic::<S>(),
        agree_in_magnitude(xs, ys),
        scale_of(xs, s1),
        scale_of(ys, s2),
    ensures
        s1 == s2,
{
    lemma_magnitude_symmetric(xs, ys);
    assert(ys.take(ys.len() as int) == ys);
    assert(xs.take(xs.len() as int) == xs);
    if running_scale(xs, s1) && running_scale(ys, s2) {
        lemma_running_scale_agrees(xs, ys, s1, s2);
    } else if running_scale(ys, s2) {
        let (k, p, mag) = choose|k: int, prev: S, mag: S|
            #![trigger running_scale(xs.take(k), prev), call_ensures(S::abs, (xs[k],), mag)]
            0 <= k < xs.len() && running_scale(xs.take(k), prev) && call_ensures(S::abs, (xs[k],), mag)
                && call_ensures(S::is_nan, (mag,), true) && call_ensures(S::nan, (), s1);
        lemma_nan_stops_both(xs, ys, k, mag, ys.len() as int, s2);
    } else if running_scale(xs, s1) {
        let (k, p, mag) = choose|k: int, prev: S, mag: S|
            #![trigger running_scale(ys.take(k), prev), call_ensures(S::abs, (ys[k],), mag)]
            0 <= k < ys.len() && running_scale(ys.take(k), prev) && call_ensures(S::abs, (ys[k],), mag)
                && call_ensures(S::is_nan, (mag,), true) && call_ensures(S::nan, (), s2);
        lemma_nan_stops_both(ys, xs, k, mag, xs.len() as int, s1);
    } else {
        let (k1, p1, mag1) = choose|k: int, prev: S, mag: S|
            #![trigger running_scale(xs.take(k), prev), call_ensures(S::abs, (xs[k],), mag)]
            0 <= k < xs.len() && running_scale(xs.take(k), prev) && call_ensures(S::abs, (xs[k],), mag)
                && call_ensures(S::is_nan, (mag,), true) && call_ensures(S::nan, (), s1);
        let (k2, p2, mag2) = choose|k: int, prev: S, mag: S|
            #![trigger running_scale(ys.take(k), prev), call_ensures(S::abs, (ys[k],), mag)]
            0 <= k < ys.len() && running_scale(ys.take(k), prev) && call_ensures(S::abs, (ys[k],), mag)
                && call_ensures(S::is_nan, (mag,), true) && call_ensures(S::nan, (), s2);
        if k1 < k2 {
            lemma_nan_stops_both(xs, ys, k1, mag1, k2, p2);
        } else if k2 < k1 {
            lemma_nan_stops_both(ys, xs, k2, mag2, k1, p1);
        }
    }
}

proof fn lemma_square_sum_agrees<S: MonitorSample>(
    xs: Seq<S>,
    ys: Seq<S>,
    scale: S,
    sum1: S,
    sum2: S,
)
    requires
        deterministic_arithmetic::<S>(),
        agree_in_scaled_squares(xs, ys),
        scaled_square_sum(xs, scale, sum1),
        scaled_square_sum(ys, scale, sum2),
    ensures
        sum1 == sum2,
    decreases xs.len(),
{
    if xs.len() > 0 {
        let last = xs.len() - 1;
        let (p1, q1, sq1) = choose|prev: S, q: S, sq: S|
            #![trigger call_ensures(S::divide, (xs.last(), scale), q), call_ensures(S::plus, (prev, sq), sum1)]
            scaled_square_sum(xs.drop_last(), scale, prev) && call_ensures(
                S::divide,
                (xs.last(), scale),
                q,
            ) && call_ensures(S::times, (q, q), sq) && call_ensures(S::plus, (prev, sq), sum1);
        let (p2, q2, sq2) = choose|prev: S, q: S, sq: S|
            #![trigger call_ensures(S::divide, (ys.last(), scale), q), call_ensures(S::plus, (prev, sq), sum2)]
            scaled_square_sum(ys.drop_last(), scale, prev) && call_ensures(
                S::divide,
                (ys.last(), scale),
                q,
            ) && call_ensures(S::times, (q, q), sq) && call_ensures(S::plus, (prev, sq), sum2);
        lemma_squares_prefix(xs, ys, last);
        assert(xs.drop_last() == xs.take(last) && ys.drop_last() == ys.take(last));
        lemma_square_sum_agrees(xs.drop_last(), ys.drop_last(), scale, p1, p2);
        assert(xs.last() == xs[last] && ys.last() == ys[last]);
        assert(call_ensures(S::divide, (xs[last], scale), q1) && call_ensures(
            S::divide,
            (ys[last], scale),
            q2,
        ));
        assert(sq1 == sq2);
    }
}

/// Rms agrees on two frames whose selected samples agree in magnitude and in
/// squares once scaled, entry by entry, when the arithmetic is deterministic. With
/// `|-x| = |x|` and `(-x / s)² = (x / s)²`, this covers a frame and its copy with
/// some polarities reversed.
pub proof fn law_rms_sees_only_magnitudes<S: MonitorSample>(xs: Seq<S>, ys: Seq<S>, r1: S, r2: S)
    requires
        deterministic_arithmetic::<S>(),
        agree_in_magnitude(xs, ys),
        agree_in_scaled_squares(xs, ys),
        is_channel_rms(xs, r1),
        is_channel_rms(ys, r2),
    ensures
        r1 == r2,
{
    let s1 = choose|s: S|
        #[trigger] scale_of(xs, s) && ((scale_passes_through(s) && r1 == s) || (scale_normalizes(s)
            && rms_from_scale(xs, s, r1)));
    let s2 = choose|s: S|
        #[trigger] scale_of(ys, s) && ((scale_passes_through(s) && r2 == s) || (scale_normalizes(s)
            && rms_from_scale(ys, s, r2)));
    lemma_scale_agrees(xs, ys, s1, s2);
    if rms_from_scale(xs, s1, r1) && rms_from_scale(ys, s2, r2) && scale_normalizes(s1) {
        let (c1, sum1, mean1, one1, cl1, root1) = choose|
            count: S,
            sum: S,
            mean: S,
            one: S,
            clamped: S,
            root: S,
        |
            #![trigger call_ensures(S::divide, (sum, count), mean), call_ensures(S::minimum, (mean, one), clamped), call_ensures(S::sqrt, (clamped,), root)]
            call_ensures(S::from_count, (xs.len() as usize,), count) && scaled_square_sum(xs, s1, sum)
                && call_ensures(S::divide, (sum, count), mean) && call_ensures(S::one, (), one)
                && call_ensures(S::minimum, (mean, one), clamped) && call_ensures(
                S::sqrt,
                (clamped,),
                root,
            ) && call_ensures(S::times, (s1, root), r1);
        let (c2, sum2, mean2, one2, cl2, root2) = choose|
            count: S,
            sum: S,
            mean: S,
            one: S,
            clamped: S,
            root: S,
        |
            #![trigger call_ensures(S::divide, (sum, count), mean), call_ensures(S::minimum, (mean, one), clamped), call_ensures(S::sqrt, (clamped,), root)]
            call_ensures(S::from_count, (ys.len() as usize,), count) && scaled_square_sum(ys, s2, sum)
                && call_ensures(S::divide, (sum, count), mean) && call_ensures(S::one, (), one)
                && call_ensures(S::minimum, (mean, one), clamped) && call_ensures(
                S::sqrt,
                (clamped,),
                root,
            ) && call_ensures(S::times, (s2, root), r2);
        lemma_square_sum_agrees(xs, ys, s1, sum1, sum2);
        assert(c1 == c2);
        assert(mean1 == mean2);
        assert(one1 == one2);
        assert(cl1 == cl2);
        assert(root1 == root2);
    }
}

/// The reduction is a function of the selected samples: with a deterministic
/// arithmetic, one frame has exactly one reduced value in every mode.
pub proof fn law_reduction_is_deterministic<S: MonitorSample>(
    mode: MonitorMode,
    xs: Seq<S>,
    r1: S,
    r2: S,
)
    requires
        deterministic_arithmetic::<S>(),
        reduced_by(mode, xs, r1),
        reduced_by(mode, xs, r2),
    ensures
        r1 == r2,
{
    lemma_self_agreement(xs);
    match mode {
        MonitorMode::Sum => lemma_sum_unique(xs, r1, r2),
        MonitorMode::Max => law_peak_sees_only_magnitudes(xs, xs, r1, r2),
        MonitorMode::Rms => law_rms_sees_only_magnitudes(xs, xs, r1, r2),
    }
}

/// Two reductions of the same chunk, selection and mode into scratch buffers with
/// different previous contents give identical buffers, when the arithmetic is
/// deterministic: every scratch sample is overwritten and none leaks into a result.
pub proof fn law_scratch_independence<S: MonitorSample>(
    mode: MonitorMode,
    waveforms: Seq<Vec<S>>,
    channels: Seq<usize>,
    out1: Seq<S>,
    out2: Seq<S>,
)
    requires
        deterministic_arithmetic::<S>(),
        out1.len() == out2.len(),
        forall|f: int|
            0 <= f < out1.len() ==> reduced_by(
                mode,
                frame_samples(waveforms, channels, f),
                #[trigger] out1[f],
            ),
        forall|f: int|
            0 <= f < out2.len() ==> reduced_by(
                mode,
                frame_samples(waveforms, channels, f),
                #[trigger] out2[f],
            ),
    ensures
        out1 == out2,
{
    assert forall|f: int| 0 <= f < out1.len() implies out1[f] == out2[f] by {
        law_reduction_is_deterministic(mode, frame_samples(waveforms, channels, f), out1[f], out2[f]);
    }
    assert(out1 =~= out2);
}

/// With a deterministic arithmetic, a chunk cut from a stream reduces to exactly
/// the values of the stream at the same frames.
pub proof fn law_chunked_values<S: MonitorSample>(
    mode: MonitorMode,
    stream: Seq<Vec<S>>,
    chunk: Seq<Vec<S>>,
    channels: Seq<usize>,
    start: int,
    f: int,
    r_chunk: S,
    r_stream: S,
)
    requires
        deterministic_arithmetic::<S>(),
        0 <= start,
        0 <= f,
        forall|i: int|
            0 <= i < channels.len() ==> {
                let c = #[trigger] channels[i] as int;
                &&& f < chunk[c]@.len()
                &&& start + chunk[c]@.len() <= stream[c]@.len()
                &&& chunk[c]@ == stream[c]@.subrange(start, start + chunk[c]@.len())
            },
        reduced_by(mode, frame_samples(chunk, channels, f), r_chunk),
        reduced_by(mode, frame_samples(stream, channels, start + f), r_stream),
    ensures
        r_chunk == r_stream,
{
    law_chunking(mode, stream, chunk, channels, start, f, r_chunk);
    law_reduction_is_deterministic(
        mode,
        frame_samples(stream, channels, start + f),
        r_chunk,
        r_stream,
    );
}

/// The fold of `mx` over `ms`, left to right: the first value, then `mx` of the
/// running value and each further value.
pub open spec fn max_fold<S>(mx: spec_fn(S, S) -> S, ms: Seq<S>) -> S
    decreases ms.len(),
{
    if ms.len() <= 1 {
        ms[0]
    } else {
        mx(max_fold(mx, ms.drop_last()), ms.last())
    }
}

/// `mx` is commutative and associative.
pub open spec fn commutative_associative<S>(mx: spec_fn(S, S) -> S) -> bool {
    &&& forall|a: S, b: S| #[trigger] mx(a, b) == mx(b, a)
    &&& forall|a: S, b: S, c: S| #[trigger] mx(mx(a, b), c) == mx(a, mx(b, c))
}

/// `maximum` computes `mx` and `abs` computes `mag`.
pub open spec fn peak_arithmetic<S: MonitorSample>(mx: spec_fn(S, S) -> S, mag: spec_fn(S) -> S) -> bool {
    &&& forall|a: S, b: S, r: S| #[trigger] call_ensures(S::maximum, (a, b), r) ==> r == mx(a, b)
    &&& forall|x: S, r: S| #[trigger] call_ensures(S::abs, (x,), r) ==> r == mag(x)
}

proof fn lemma_peak_is_fold<S: MonitorSample>(
    mx: spec_fn(S, S) -> S,
    mag: spec_fn(S) -> S,
    xs: Seq<S>,
    r: S,
)
    requires
        peak_arithmetic(mx, mag),
        is_peak(xs, r),
    ensures
        xs.len() >= 1,
        r == max_fold(mx, xs.map_values(mag)),
    decreases xs.len(),
{
    let ms = xs.map_values(mag);
    if xs.len() > 1 {
        let (m, a) = choose|m: S, a: S|
            #![trigger call_ensures(S::abs, (xs.last(),), a), call_ensures(S::maximum, (m, a), r)]
            is_peak(xs.drop_last(), m) && call_ensures(S::abs, (xs.last(),), a) && call_ensures(
                S::maximum,
                (m, a),
                r,
            );
        lemma_peak_is_fold(mx, mag, xs.drop_last(), m);
        assert(ms.drop_last() =~= xs.drop_last().map_values(mag));
        assert(ms.last() == mag(xs.last()));
    } else {
        assert(ms[0] == mag(xs[0]));
    }
}

proof fn lemma_max_fold_remove<S>(mx: spec_fn(S, S) -> S, ms: Seq<S>, j: int)
    requires
        commutative_associative(mx),
        ms.len() >= 2,
        0 <= j < ms.len(),
    ensures
        max_fold(mx, ms) == mx(max_fold(mx, ms.remove(j)), ms[j]),
    decreases ms.len(),
{
    let last = ms.len() - 1;
    let d = ms.drop_last();
    if j == last {
        assert(ms.remove(j) =~= d);
        assert(max_fold(mx, ms) == mx(max_fold(mx, d), ms[last]));
    } else if ms.len() == 2 {
        assert(ms.remove(j) =~= seq![ms[1]]);
        assert(d =~= seq![ms[0]]);
        assert(max_fold(mx, ms.remove(j)) == ms[1]);
        assert(max_fold(mx, d) == ms[0]);
        assert(max_fold(mx, ms) == mx(ms[0], ms[1]));
        assert(mx(ms[0], ms[1]) == mx(ms[1], ms[0]));
    } else {
        lemma_max_fold_remove(mx, d, j);
        assert(ms.remove(j).drop_last() =~= d.remove(j));
        assert(ms.remove(j).last() == ms[last]);
        let p = max_fold(mx, d.remove(j));
        let a = ms[j];
        let b = ms[last];
        assert(d[j] == a);
        assert(max_fold(mx, ms.remove(j)) == mx(p, b));
        assert(max_fold(mx, d) == mx(p, a));
        assert(max_fold(mx, ms) == mx(mx(p, a), b));
        assert(mx(mx(p, a), b) == mx(p, mx(a, b)));
        assert(mx(a, b) == mx(b, a));
        assert(mx(mx(p, b), a) == mx(p, mx(b, a)));
    }
}

proof fn lemma_max_fold_permutation<S>(mx: spec_fn(S, S) -> S, ms: Seq<S>, ns: Seq<S>)
    requires
        commutative_associative(mx),
        ms.len() >= 1,
        ms.to_multiset() == ns.to_multiset(),
    ensures
        max_fold(mx, ms) == max_fold(mx, ns),
    decreases ms.len(),
{
    broadcast use vstd::seq_lib::group_to_multiset_ensures;
    broadcast use vstd::multiset::group_multiset_axioms;

    vstd::seq_lib::to_multiset_len(ms);
    vstd::seq_lib::to_multiset_len(ns);
    assert(ms.len() == ns.len());
    let last = ns.len() - 1;
    let y = ns[last];
    assert(ns.contains(y));
    assert(ns.to_multiset().count(y) > 0);
    assert(ms.to_multiset().count(y) > 0);
    assert(ms.contains(y));
    let j = choose|j: int| 0 <= j < ms.len() && ms[j] == y;
    if ms.len() == 1 {
        assert(ms[0] == y);
    } else {
        lemma_max_fold_remove(mx, ms, j);
        assert(ns =~= ns.drop_last().push(y));
        assert(ns.to_multiset() =~= ns.drop_last().to_multiset().insert(y));
        assert(ms.remove(j).to_multiset() =~= ms.to_multiset().remove(y));
        assert(ms.remove(j).to_multiset() =~= ns.drop_last().to_multiset());
        lemma_max_fold_permutation(mx, ms.remove(j), ns.drop_last());
    }
}

/// Max does not depend on the order of the selection, nor on anything but the
/// magnitudes: when `abs` computes `mag` and `maximum` computes a commutative and
/// associative `mx` (as `f64::max` is on the magnitudes that `abs` gives), two
/// frames whose magnitudes are the same multiset (such as a frame and its copy
/// with the selection reordered and some polarities reversed) have equal peaks.
pub proof fn law_peak_ignores_order<S: MonitorSample>(
    mx: spec_fn(S, S) -> S,
    mag: spec_fn(S) -> S,
    xs: Seq<S>,
    ys: Seq<S>,
    r1: S,
    r2: S,
)
    requires
        peak_arithmetic(mx, mag),
        commutative_associative(mx),
        xs.map_values(mag).to_multiset() == ys.map_values(mag).to_multiset(),
        is_peak(xs, r1),
        is_peak(ys, r2),
    ensures
        r1 == r2,
{
    lemma_peak_is_fold(mx, mag, xs, r1);
    lemma_peak_is_fold(mx, mag, ys, r2);
    lemma_max_fold_permutation(mx, xs.map_values(mag), ys.map_values(mag));
}

/// A mathematical model of a sample arithmetic: the value or function that each
/// operation of the sample type computes.
#[verifier::reject_recursive_types(S)]
pub struct ArithmeticModel<S> {
    pub zero: S,
    pub one: S,
    pub nan: S,
    pub from_count: spec_fn(usize) -> S,
    pub plus: spec_fn(S, S) -> S,
    pub times: spec_fn(S, S) -> S,
    pub divide: spec_fn(S, S) -> S,
    pub abs: spec_fn(S) -> S,
    pub maximum: spec_fn(S, S) -> S,
    pub minimum: spec_fn(S, S) -> S,
    pub sqrt: spec_fn(S) -> S,
    pub is_nan: spec_fn(S) -> bool,
    pub is_finite: spec_fn(S) -> bool,
    pub is_zero: spec_fn(S) -> bool,
}

/// Every operation of the sample type returns what `model` gives for its arguments.
pub open spec fn follows_model<S: MonitorSample>(model: ArithmeticModel<S>) -> bool {
    &&& forall|r: S| #[trigger] call_ensures(S::zero, (), r) ==> r == model.zero
    &&& forall|r: S| #[trigger] call_ensures(S::one, (), r) ==> r == model.one
    &&& forall|r: S| #[trigger] call_ensures(S::nan, (), r) ==> r == model.nan
    &&& forall|n: usize, r: S|
        #[trigger] call_ensures(S::from_count, (n,), r) ==> r == (model.from_count)(n)
    &&& forall|a: S, b: S, r: S|
        #[trigger] call_ensures(S::plus, (a, b), r) ==> r == (model.plus)(a, b)
    &&& forall|a: S, b: S, r: S|
        #[trigger] call_ensures(S::times, (a, b), r) ==> r == (model.times)(a, b)
    &&& forall|a: S, b: S, r: S|
        #[trigger] call_ensures(S::divide, (a, b), r) ==> r == (model.divide)(a, b)
    &&& forall|a: S, r: S| #[trigger] call_ensures(S::abs, (a,), r) ==> r == (model.abs)(a)
    &&& forall|a: S, b: S, r: S|
        #[trigger] call_ensures(S::maximum, (a, b), r) ==> r == (model.maximum)(a, b)
    &&& forall|a: S, b: S, r: S|
        #[trigger] call_ensures(S::minimum, (a, b), r) ==> r == (model.minimum)(a, b)
    &&& forall|a: S, r: S| #[trigger] call_ensures(S::sqrt, (a,), r) ==> r == (model.sqrt)(a)
    &&& forall|a: S, r: bool|
        #[trigger] call_ensures(S::is_nan, (a,), r) ==> r == (model.is_nan)(a)
    &&& forall|a: S, r: bool|
        #[trigger] call_ensures(S::is_finite, (a,), r) ==> r == (model.is_finite)(a)
    &&& forall|a: S, r: bool|
        #[trigger] call_ensures(S::is_zero, (a,), r) ==> r == (model.is_zero)(a)
}


proof fn lemma_sum_is_fold<S: MonitorSample>(model: ArithmeticModel<S>, xs: Seq<S>, r: S)
    requires
        follows_model(model),
        is_signed_sum(xs, r),
    ensures
        xs.len() >= 1,
        r == xs.drop_first().fold_left(xs[0], model.plus),
    decreases xs.len(),
{
    if xs.len() > 1 {
        let m = choose|m: S|
            #[trigger] call_ensures(S::plus, (m, xs.last()), r) && is_signed_sum(xs.drop_last(), m);
        lemma_sum_is_fold(model, xs.drop_last(), m);
        assert(xs.drop_last()[0] == xs[0]);
        assert(xs.drop_first().drop_last() =~= xs.drop_last().drop_first());
        assert(xs.drop_first().last() == xs.last());
    } else {
        assert(xs.drop_first() =~= Seq::<S>::empty());
    }
}

proof fn lemma_peak_is_magnitude_fold<S: MonitorSample>(model: ArithmeticModel<S>, xs: Seq<S>, r: S)
    requires
        follows_model(model),
        is_peak(xs, r),
    ensures
        xs.len() >= 1,
        r == xs.map_values(model.abs).drop_first().fold_left(
            (model.abs)(xs[0]),
            model.maximum,
        ),
    decreases xs.len(),
{
    let ms = xs.map_values(model.abs);
    if xs.len() > 1 {
        let (m, a) = choose|m: S, a: S|
            #![trigger call_ensures(S::abs, (xs.last(),), a), call_ensures(S::maximum, (m, a), r)]
            is_peak(xs.drop_last(), m) && call_ensures(S::abs, (xs.last(),), a) && call_ensures(
                S::maximum,
                (m, a),
                r,
            );
        lemma_peak_is_magnitude_fold(model, xs.drop_last(), m);
        assert(xs.drop_last()[0] == xs[0]);
        assert(ms.drop_first().drop_last() =~= xs.drop_last().map_values(model.abs).drop_first());
        assert(ms.drop_first().last() == (model.abs)(xs.last()));
    } else {
        assert(ms.drop_first() =~= Seq::<S>::empty());
    }
}

/// Sum, stated over the arithmetic's model: the reduced value of frame `f` is the
/// first selected sample plus each further selected sample, added left to right in
/// selection order (repeated entries counted again).
pub proof fn law_sum_value<S: MonitorSample>(
    model: ArithmeticModel<S>,
    waveforms: Seq<Vec<S>>,
    channels: Seq<usize>,
    f: int,
    r: S,
)
    requires
        follows_model(model),
        reduced_by(MonitorMode::Sum, frame_samples(waveforms, channels, f), r),
    ensures
        ({
            let xs = Seq::new(channels.len(), |i: int| waveforms[channels[i] as int]@[f]);
            &&& channels.len() >= 1
            &&& r == xs.drop_first().fold_left(xs[0], model.plus)
        }),
{
    let xs = Seq::new(channels.len(), |i: int| waveforms[channels[i] as int]@[f]);
    assert(frame_samples(waveforms, channels, f) =~= xs);
    lemma_sum_is_fold(model, xs, r);
}

/// Max, stated over the arithmetic's model: the reduced value of frame `f` is the
/// magnitude of the first selected sample, then the maximum of the running value
/// and the magnitude of each further selected sample, in selection order.
pub proof fn law_peak_value<S: MonitorSample>(
    model: ArithmeticModel<S>,
    waveforms: Seq<Vec<S>>,
    channels: Seq<usize>,
    f: int,
    r: S,
)
    requires
        follows_model(model),
        reduced_by(MonitorMode::Max, frame_samples(waveforms, channels, f), r),
    ensures
        ({
            let xs = Seq::new(channels.len(), |i: int| waveforms[channels[i] as int]@[f]);
            &&& channels.len() >= 1
            &&& r == xs.map_values(model.abs).drop_first().fold_left(
                (model.abs)(xs[0]),
                model.maximum,
            )
        }),
{
    let xs = Seq::new(channels.len(), |i: int| waveforms[channels[i] as int]@[f]);
    assert(frame_samples(waveforms, channels, f) =~= xs);
    lemma_peak_is_magnitude_fold(model, xs, r);
}


proof fn lemma_running_scale_is_fold<S: MonitorSample>(model: ArithmeticModel<S>, xs: Seq<S>, s: S)
    requires
        follows_model(model),
        running_scale(xs, s),
    ensures
        s == xs.map_values(model.abs).fold_left(model.zero, model.maximum),
        forall|i: int| 0 <= i < xs.len() ==> !(model.is_nan)(#[trigger] xs.map_values(model.abs)[i]),
    decreases xs.len(),
{
    let ms = xs.map_values(model.abs);
    if xs.len() > 0 {
        let (prev, mag) = choose|prev: S, mag: S|
            #![trigger call_ensures(S::abs, (xs.last(),), mag), call_ensures(S::maximum, (prev, mag), s)]
            running_scale(xs.drop_last(), prev) && call_ensures(S::abs, (xs.last(),), mag)
                && call_ensures(S::is_nan, (mag,), false) && call_ensures(S::maximum, (prev, mag), s);
        lemma_running_scale_is_fold(model, xs.drop_last(), prev);
        assert(ms.drop_last() =~= xs.drop_last().map_values(model.abs));
        assert(ms.last() == (model.abs)(xs.last()));
        assert forall|i: int| 0 <= i < xs.len() implies !(model.is_nan)(#[trigger] ms[i]) by {
            if i < xs.len() - 1 {
                assert(ms[i] == xs.drop_last().map_values(model.abs)[i]);
            }
        }
    }
}

proof fn lemma_stopped_is_nan<S: MonitorSample>(model: ArithmeticModel<S>, xs: Seq<S>, s: S)
    requires
        follows_model(model),
        stopped_at_nan(xs, s),
    ensures
        s == model.nan,
        exists|i: int| 0 <= i < xs.len() && (model.is_nan)(#[trigger] xs.map_values(model.abs)[i]),
{
    let (k, prev, mag) = choose|k: int, prev: S, mag: S|
        #![trigger running_scale(xs.take(k), prev), call_ensures(S::abs, (xs[k],), mag)]
        0 <= k < xs.len() && running_scale(xs.take(k), prev) && call_ensures(S::abs, (xs[k],), mag)
            && call_ensures(S::is_nan, (mag,), true) && call_ensures(S::nan, (), s);
    assert(xs.map_values(model.abs)[k] == mag);
}

proof fn lemma_scale_is_model<S: MonitorSample>(model: ArithmeticModel<S>, xs: Seq<S>, s: S)
    requires
        follows_model(model),
        scale_of(xs, s),
    ensures
        s == (if exists|i: int|
            0 <= i < xs.len() && (model.is_nan)(#[trigger] xs.map_values(model.abs)[i]) {
            model.nan
        } else {
            xs.map_values(model.abs).fold_left(model.zero, model.maximum)
        }),
{
    if running_scale(xs, s) {
        lemma_running_scale_is_fold(model, xs, s);
    } else {
        lemma_stopped_is_nan(model, xs, s);
    }
}

proof fn lemma_square_sum_is_fold<S: MonitorSample>(
    model: ArithmeticModel<S>,
    xs: Seq<S>,
    scale: S,
    sum: S,
)
    requires
        follows_model(model),
        scaled_square_sum(xs, scale, sum),
    ensures
        sum == xs.map_values(
            |x: S| (model.times)((model.divide)(x, scale), (model.divide)(x, scale)),
        ).fold_left(model.zero, model.plus),
    decreases xs.len(),
{
    let sq = xs.map_values(
        |x: S| (model.times)((model.divide)(x, scale), (model.divide)(x, scale)),
    );
    if xs.len() > 0 {
        let (prev, q, qq) = choose|prev: S, q: S, qq: S|
            #![trigger call_ensures(S::divide, (xs.last(), scale), q), call_ensures(S::plus, (prev, qq), sum)]
            scaled_square_sum(xs.drop_last(), scale, prev) && call_ensures(
                S::divide,
                (xs.last(), scale),
                q,
            ) && call_ensures(S::times, (q, q), qq) && call_ensures(S::plus, (prev, qq), sum);
        lemma_square_sum_is_fold(model, xs.drop_last(), scale, prev);
        assert(sq.drop_last() =~= xs.drop_last().map_values(
            |x: S| (model.times)((model.divide)(x, scale), (model.divide)(x, scale)),
        ));
        assert(sq.last() == (model.times)(
            (model.divide)(xs.last(), scale),
            (model.divide)(xs.last(), scale),
        ));
    }
}

/// Rms, stated over the arithmetic's model, for every number N of selected entries:
/// the scale is NaN if any selected magnitude is NaN, and otherwise the running
/// maximum, from zero, of the magnitudes of all N entries. A zero or non-finite scale
/// is the result. Otherwise the result is
/// `scale * sqrt(min((Σ (x_i / scale)²) / N, 1))`, the sum taken left to right from
/// zero over all N entries and divided by the sample value of N itself.
pub proof fn law_rms_value<S: MonitorSample>(
    model: ArithmeticModel<S>,
    waveforms: Seq<Vec<S>>,
    channels: Seq<usize>,
    f: int,
    r: S,
)
    requires
        follows_model(model),
        reduced_by(MonitorMode::Rms, frame_samples(waveforms, channels, f), r),
    ensures
        ({
            let xs = Seq::new(channels.len(), |i: int| waveforms[channels[i] as int]@[f]);
            let mags = xs.map_values(model.abs);
            let scale = if exists|i: int| 0 <= i < xs.len() && (model.is_nan)(#[trigger] mags[i]) {
                model.nan
            } else {
                mags.fold_left(model.zero, model.maximum)
            };
            let squares = xs.map_values(
                |x: S| (model.times)((model.divide)(x, scale), (model.divide)(x, scale)),
            );
            let mean = (model.divide)(
                squares.fold_left(model.zero, model.plus),
                (model.from_count)(channels.len() as usize),
            );
            r == (if (model.is_zero)(scale) || !(model.is_finite)(scale) {
                scale
            } else {
                (model.times)(scale, (model.sqrt)((model.minimum)(mean, model.one)))
            })
        }),
{
    let xs = Seq::new(channels.len(), |i: int| waveforms[channels[i] as int]@[f]);
    assert(frame_samples(waveforms, channels, f) =~= xs);
    let s = choose|s: S|
        #[trigger] scale_of(xs, s) && ((scale_passes_through(s) && r == s) || (scale_normalizes(s)
            && rms_from_scale(xs, s, r)));
    lemma_scale_is_model(model, xs, s);
    if scale_normalizes(s) && rms_from_scale(xs, s, r) {
        let (count, sum, mean, one, clamped, root) = choose|
            count: S,
            sum: S,
            mean: S,
            one: S,
            clamped: S,
            root: S,
        |
            #![trigger call_ensures(S::divide, (sum, count), mean), call_ensures(S::minimum, (mean, one), clamped), call_ensures(S::sqrt, (clamped,), root)]
            call_ensures(S::from_count, (xs.len() as usize,), count) && scaled_square_sum(xs, s, sum)
                && call_ensures(S::divide, (sum, count), mean) && call_ensures(S::one, (), one)
                && call_ensures(S::minimum, (mean, one), clamped) && call_ensures(
                S::sqrt,
                (clamped,),
                root,
            ) && call_ensures(S::times, (s, root), r);
        lemma_square_sum_is_fold(model, xs, s, sum);
    }
}

} // verus!
