//! Channel reduction only; consumers keep their own rectification and envelope logic.

use vstd::prelude::*;

use crate::audiochunk::AudioChunk;
use crate::config::MonitorMode;
use crate::sample::MonitorSample;

verus! {

/// The samples of the selected channels at one frame, in selection order.
/// Entries are taken as given: neither sorted nor deduplicated.
pub open spec fn frame_samples<S>(waveforms: Seq<Vec<S>>, channels: Seq<usize>, frame: int) -> Seq<S> {
    Seq::new(channels.len(), |i: int| waveforms[channels[i] as int]@[frame])
}

/// `r` is the signed sum of `xs`: the first sample, then each further sample
/// added to the running total in order.
pub open spec fn is_signed_sum<S: MonitorSample>(xs: Seq<S>, r: S) -> bool
    decreases xs.len(),
{
    if xs.len() <= 1 {
        xs.len() == 1 && r == xs[0]
    } else {
        exists|m: S|
            #[trigger] call_ensures(S::plus, (m, xs.last()), r) && is_signed_sum(xs.drop_last(), m)
    }
}

/// `r` is the peak of `xs`: the magnitude of the first sample, then the larger of
/// the running peak and the magnitude of each further sample, in order.
pub open spec fn is_peak<S: MonitorSample>(xs: Seq<S>, r: S) -> bool
    decreases xs.len(),
{
    if xs.len() <= 1 {
        xs.len() == 1 && call_ensures(S::abs, (xs[0],), r)
    } else {
        exists|m: S, a: S|
            #![trigger call_ensures(S::abs, (xs.last(),), a), call_ensures(S::maximum, (m, a), r)]
            is_peak(xs.drop_last(), m) && call_ensures(S::abs, (xs.last(),), a) && call_ensures(
                S::maximum,
                (m, a),
                r,
            )
    }
}

/// `s` is the running scale after the samples `xs`, none of whose magnitudes was
/// NaN: it starts at zero and takes the larger of itself and each magnitude in order.
pub open spec fn running_scale<S: MonitorSample>(xs: Seq<S>, s: S) -> bool
    decreases xs.len(),
{
    if xs.len() == 0 {
        call_ensures(S::zero, (), s)
    } else {
        exists|prev: S, mag: S|
            #![trigger call_ensures(S::abs, (xs.last(),), mag), call_ensures(S::maximum, (prev, mag), s)]
            running_scale(xs.drop_last(), prev) && call_ensures(S::abs, (xs.last(),), mag)
                && call_ensures(S::is_nan, (mag,), false) && call_ensures(
                S::maximum,
                (prev, mag),
                s,
            )
    }
}

/// The scale pass stopped at entry `k`, whose magnitude was NaN: the scale is NaN
/// and the later entries are not examined.
pub open spec fn stopped_at_nan<S: MonitorSample>(xs: Seq<S>, s: S) -> bool {
    exists|k: int, prev: S, mag: S|
        #![trigger running_scale(xs.take(k), prev), call_ensures(S::abs, (xs[k],), mag)]
        0 <= k < xs.len() && running_scale(xs.take(k), prev) && call_ensures(S::abs, (xs[k],), mag)
            && call_ensures(S::is_nan, (mag,), true) && call_ensures(S::nan, (), s)
}

/// The outcome of the scale pass over one frame.
pub open spec fn scale_of<S: MonitorSample>(xs: Seq<S>, s: S) -> bool {
    running_scale(xs, s) || stopped_at_nan(xs, s)
}

/// A zero or non-finite scale is the result itself (`scale == 0 || !scale.is_finite()`).
pub open spec fn scale_passes_through<S: MonitorSample>(s: S) -> bool {
    call_ensures(S::is_zero, (s,), true) || (call_ensures(S::is_zero, (s,), false)
        && call_ensures(S::is_finite, (s,), false))
}

/// A nonzero finite scale normalizes the samples.
pub open spec fn scale_normalizes<S: MonitorSample>(s: S) -> bool {
    call_ensures(S::is_zero, (s,), false) && call_ensures(S::is_finite, (s,), true)
}

/// `sum` is the sum, from zero and in order, of the squares of the samples of `xs`
/// each divided by `scale`.
pub open spec fn scaled_square_sum<S: MonitorSample>(xs: Seq<S>, scale: S, sum: S) -> bool
    decreases xs.len(),
{
    if xs.len() == 0 {
        call_ensures(S::zero, (), sum)
    } else {
        exists|prev: S, q: S, sq: S|
            #![trigger call_ensures(S::divide, (xs.last(), scale), q), call_ensures(S::plus, (prev, sq), sum)]
            scaled_square_sum(xs.drop_last(), scale, prev) && call_ensures(
                S::divide,
                (xs.last(), scale),
                q,
            ) && call_ensures(S::times, (q, q), sq) && call_ensures(S::plus, (prev, sq), sum)
    }
}

/// `r` is `scale * min(sum / count, 1).sqrt()`, where `sum` is the scaled square sum of
/// `xs` and `count` is the number of entries: clamping the mean at one bounds rounding
/// so that a representable result cannot overflow.
pub open spec fn rms_from_scale<S: MonitorSample>(xs: Seq<S>, scale: S, r: S) -> bool {
    exists|count: S, sum: S, mean: S, one: S, clamped: S, root: S|
        #![trigger call_ensures(S::divide, (sum, count), mean), call_ensures(S::minimum, (mean, one), clamped), call_ensures(S::sqrt, (clamped,), root)]
        call_ensures(S::from_count, (xs.len() as usize,), count) && scaled_square_sum(xs, scale, sum)
            && call_ensures(S::divide, (sum, count), mean) && call_ensures(S::one, (), one)
            && call_ensures(S::minimum, (mean, one), clamped) && call_ensures(
            S::sqrt,
            (clamped,),
            root,
        ) && call_ensures(S::times, (scale, root), r)
}

/// `r` is the root mean square across the samples `xs` of one frame, computed on
/// samples scaled by their largest magnitude: a NaN magnitude gives NaN, a zero or
/// non-finite scale is returned as is, otherwise the scaled mean of squares is used.
pub open spec fn is_channel_rms<S: MonitorSample>(xs: Seq<S>, r: S) -> bool {
    exists|s: S|
        #[trigger] scale_of(xs, s) && ((scale_passes_through(s) && r == s) || (scale_normalizes(s)
            && rms_from_scale(xs, s, r)))
}

/// Applies the reduction of `mode` to the samples `xs` of one frame.
pub open spec fn reduced_by<S: MonitorSample>(mode: MonitorMode, xs: Seq<S>, r: S) -> bool {
    match mode {
        MonitorMode::Sum => is_signed_sum(xs, r),
        MonitorMode::Max => is_peak(xs, r),
        MonitorMode::Rms => is_channel_rms(xs, r),
    }
}

/// Selection and scratch shapes that the reduction needs: a nonempty selection
/// of valid channel indices whose waveforms all have the scratch length.
pub open spec fn valid_selection<S>(waveforms: Seq<Vec<S>>, channels: Seq<usize>, frames: nat) -> bool {
    &&& channels.len() > 0
    &&& forall|i: int|
        0 <= i < channels.len() ==> (#[trigger] channels[i]) < waveforms.len()
            && waveforms[channels[i] as int]@.len() == frames
}

proof fn lemma_frame_samples_extend<S>(waveforms: Seq<Vec<S>>, channels: Seq<usize>, k: int, f: int)
    requires
        0 <= k < channels.len(),
    ensures
        frame_samples(waveforms, channels.take(k + 1), f).len() == k + 1,
        frame_samples(waveforms, channels.take(k + 1), f).drop_last() == frame_samples(
            waveforms,
            channels.take(k),
            f,
        ),
        frame_samples(waveforms, channels.take(k + 1), f).last() == waveforms[channels[k] as int]@[f],
        frame_samples(waveforms, channels, f).take(k) == frame_samples(waveforms, channels.take(k), f),
        frame_samples(waveforms, channels, f)[k] == waveforms[channels[k] as int]@[f],
{
    assert(frame_samples(waveforms, channels.take(k + 1), f).drop_last() =~= frame_samples(
        waveforms,
        channels.take(k),
        f,
    ));
    assert(frame_samples(waveforms, channels, f).take(k) =~= frame_samples(
        waveforms,
        channels.take(k),
        f,
    ));
}

proof fn lemma_frame_samples_full<S>(waveforms: Seq<Vec<S>>, channels: Seq<usize>, f: int)
    ensures
        frame_samples(waveforms, channels.take(channels.len() as int), f) == frame_samples(
            waveforms,
            channels,
            f,
        ),
{
    assert(channels.take(channels.len() as int) =~= channels);
}

proof fn lemma_sum_step<S: MonitorSample>(xs: Seq<S>, acc: S, r: S)
    requires
        xs.len() >= 2,
        is_signed_sum(xs.drop_last(), acc),
        call_ensures(S::plus, (acc, xs.last()), r),
    ensures
        is_signed_sum(xs, r),
{
}

proof fn lemma_peak_step<S: MonitorSample>(xs: Seq<S>, acc: S, a: S, r: S)
    requires
        xs.len() >= 2,
        is_peak(xs.drop_last(), acc),
        call_ensures(S::abs, (xs.last(),), a),
        call_ensures(S::maximum, (acc, a), r),
    ensures
        is_peak(xs, r),
{
}

/// Signed sum: the first selected waveform is copied, then every further
/// selected waveform is added to it in selection order.
fn sum_channels<S: MonitorSample>(input: &AudioChunk<S>, channels: &[usize], scratch: &mut [S])
    requires
        valid_selection(input.waveforms@, channels@, old(scratch)@.len()),
    ensures
        final(scratch)@.len() == old(scratch)@.len(),
        forall|f: int|
            0 <= f < old(scratch)@.len() ==> is_signed_sum(
                frame_samples(input.waveforms@, channels@, f),
                #[trigger] final(scratch)@[f],
            ),
{
    let ghost w = input.waveforms@;
    let ghost chs = channels@;
    let n = scratch.len();
    let first = channels[0];
    let mut j: usize = 0;
    while j < n
        invariant
            n == scratch@.len(),
            valid_selection(w, chs, n as nat),
            w == input.waveforms@,
            chs == channels@,
            first == chs[0],
            j <= n,
            forall|f: int| 0 <= f < j ==> #[trigger] scratch@[f] == w[first as int]@[f],
        decreases n - j,
    {
        scratch[j] = input.waveforms[first][j];
        j += 1;
    }
    proof {
        assert forall|f: int| 0 <= f < n implies is_signed_sum(
            frame_samples(w, chs.take(1), f),
            #[trigger] scratch@[f],
        ) by {
            lemma_frame_samples_extend(w, chs, 0, f);
            assert(frame_samples(w, chs.take(1), f)[0] == scratch@[f]);
        }
    }
    let mut k: usize = 1;
    while k < channels.len()
        invariant
            n == scratch@.len(),
            valid_selection(w, chs, n as nat),
            w == input.waveforms@,
            chs == channels@,
            1 <= k <= chs.len(),
            forall|f: int|
                0 <= f < n ==> is_signed_sum(
                    frame_samples(w, chs.take(k as int), f),
                    #[trigger] scratch@[f],
                ),
        decreases chs.len() - k,
    {
        let ch = channels[k];
        let mut j: usize = 0;
        while j < n
            invariant
                n == scratch@.len(),
                valid_selection(w, chs, n as nat),
                w == input.waveforms@,
                chs == channels@,
                1 <= k < chs.len(),
                ch == chs[k as int],
                j <= n,
                forall|f: int|
                    0 <= f < j ==> is_signed_sum(
                        frame_samples(w, chs.take(k + 1), f),
                        #[trigger] scratch@[f],
                    ),
                forall|f: int|
                    j <= f < n ==> is_signed_sum(
                        frame_samples(w, chs.take(k as int), f),
                        #[trigger] scratch@[f],
                    ),
            decreases n - j,
        {
            let acc = scratch[j];
            let val = input.waveforms[ch][j];
            let next = acc.plus(val);
            proof {
                lemma_frame_samples_extend(w, chs, k as int, j as int);
                lemma_sum_step(frame_samples(w, chs.take(k + 1), j as int), acc, next);
            }
            scratch[j] = next;
            j += 1;
        }
        k += 1;
    }
    proof {
        assert forall|f: int| 0 <= f < n implies is_signed_sum(
            frame_samples(w, chs, f),
            #[trigger] scratch@[f],
        ) by {
            lemma_frame_samples_full(w, chs, f);
        }
    }
}

/// Peak: the magnitude of the first selected waveform, then the larger of the
/// running peak and each further selected magnitude, in selection order.
fn peak_channels<S: MonitorSample>(input: &AudioChunk<S>, channels: &[usize], scratch: &mut [S])
    requires
        valid_selection(input.waveforms@, channels@, old(scratch)@.len()),
    ensures
        final(scratch)@.len() == old(scratch)@.len(),
        forall|f: int|
            0 <= f < old(scratch)@.len() ==> is_peak(
                frame_samples(input.waveforms@, channels@, f),
                #[trigger] final(scratch)@[f],
            ),
{
    let ghost w = input.waveforms@;
    let ghost chs = channels@;
    let n = scratch.len();
    let first = channels[0];
    let mut j: usize = 0;
    while j < n
        invariant
            n == scratch@.len(),
            valid_selection(w, chs, n as nat),
            w == input.waveforms@,
            chs == channels@,
            first == chs[0],
            j <= n,
            forall|f: int|
                0 <= f < j ==> is_peak(frame_samples(w, chs.take(1), f), #[trigger] scratch@[f]),
        decreases n - j,
    {
        let magnitude = input.waveforms[first][j].abs();
        proof {
            lemma_frame_samples_extend(w, chs, 0, j as int);
        }
        scratch[j] = magnitude;
        j += 1;
    }
    let mut k: usize = 1;
    while k < channels.len()
        invariant
            n == scratch@.len(),
            valid_selection(w, chs, n as nat),
            w == input.waveforms@,
            chs == channels@,
            1 <= k <= chs.len(),
            forall|f: int|
                0 <= f < n ==> is_peak(frame_samples(w, chs.take(k as int), f), #[trigger] scratch@[f]),
        decreases chs.len() - k,
    {
        let ch = channels[k];
        let mut j: usize = 0;
        while j < n
            invariant
                n == scratch@.len(),
                valid_selection(w, chs, n as nat),
                w == input.waveforms@,
                chs == channels@,
                1 <= k < chs.len(),
                ch == chs[k as int],
                j <= n,
                forall|f: int|
                    0 <= f < j ==> is_peak(frame_samples(w, chs.take(k + 1), f), #[trigger] scratch@[f]),
                forall|f: int|
                    j <= f < n ==> is_peak(
                        frame_samples(w, chs.take(k as int), f),
                        #[trigger] scratch@[f],
                    ),
            decreases n - j,
        {
            let peak = scratch[j];
            let magnitude = input.waveforms[ch][j].abs();
            let next = peak.maximum(magnitude);
            proof {
                lemma_frame_samples_extend(w, chs, k as int, j as int);
                lemma_peak_step(frame_samples(w, chs.take(k + 1), j as int), peak, magnitude, next);
            }
            scratch[j] = next;
            j += 1;
        }
        k += 1;
    }
    proof {
        assert forall|f: int| 0 <= f < n implies is_peak(
            frame_samples(w, chs, f),
            #[trigger] scratch@[f],
        ) by {
            lemma_frame_samples_full(w, chs, f);
        }
    }
}

proof fn lemma_scale_step<S: MonitorSample>(xs: Seq<S>, k: int, prev: S, mag: S, s: S)
    requires
        0 <= k < xs.len(),
        running_scale(xs.take(k), prev),
        call_ensures(S::abs, (xs[k],), mag),
        call_ensures(S::is_nan, (mag,), false),
        call_ensures(S::maximum, (prev, mag), s),
    ensures
        running_scale(xs.take(k + 1), s),
{
    assert(xs.take(k + 1).drop_last() =~= xs.take(k));
    assert(xs.take(k + 1).last() == xs[k]);
}

proof fn lemma_square_sum_step<S: MonitorSample>(
    xs: Seq<S>,
    k: int,
    scale: S,
    prev: S,
    q: S,
    sq: S,
    sum: S,
)
    requires
        0 <= k < xs.len(),
        scaled_square_sum(xs.take(k), scale, prev),
        call_ensures(S::divide, (xs[k], scale), q),
        call_ensures(S::times, (q, q), sq),
        call_ensures(S::plus, (prev, sq), sum),
    ensures
        scaled_square_sum(xs.take(k + 1), scale, sum),
{
    assert(xs.take(k + 1).drop_last() =~= xs.take(k));
    assert(xs.take(k + 1).last() == xs[k]);
}

/// The scale pass of one frame: the largest selected magnitude, or NaN as soon as
/// a selected magnitude is NaN.
fn frame_scale<S: MonitorSample>(input: &AudioChunk<S>, channels: &[usize], frame: usize, zero: S) -> (scale: S)
    requires
        channels@.len() > 0,
        forall|i: int|
            0 <= i < channels@.len() ==> (#[trigger] channels@[i]) < input.waveforms@.len()
                && frame < input.waveforms@[channels@[i] as int]@.len(),
        call_ensures(S::zero, (), zero),
    ensures
        scale_of(frame_samples(input.waveforms@, channels@, frame as int), scale),
{
    let ghost xs = frame_samples(input.waveforms@, channels@, frame as int);
    let nch = channels.len();
    let mut scale = zero;
    let mut k: usize = 0;
    proof {
        assert(xs.take(0) =~= Seq::<S>::empty());
    }
    loop
        invariant_except_break
            running_scale(xs.take(k as int), scale),
        invariant
            nch == channels@.len(),
            xs == frame_samples(input.waveforms@, channels@, frame as int),
            forall|i: int|
                0 <= i < channels@.len() ==> (#[trigger] channels@[i]) < input.waveforms@.len()
                    && frame < input.waveforms@[channels@[i] as int]@.len(),
            k <= nch,
        ensures
            scale_of(xs, scale),
        decreases nch - k,
    {
        if k == nch {
            assert(xs.take(k as int) =~= xs);
            break;
        }
        let magnitude = input.waveforms[channels[k]][frame].abs();
        let ghost prev = scale;
        if magnitude.is_nan() {
            scale = S::nan();
            assert(stopped_at_nan(xs, scale)) by {
                assert(xs[k as int] == input.waveforms@[channels@[k as int] as int]@[frame as int]);
                assert(running_scale(xs.take(k as int), prev) && call_ensures(
                    S::abs,
                    (xs[k as int],),
                    magnitude,
                ));
            }
            break;
        }
        scale = scale.maximum(magnitude);
        proof {
            assert(xs[k as int] == input.waveforms@[channels@[k as int] as int]@[frame as int]);
            lemma_scale_step(xs, k as int, prev, magnitude, scale);
        }
        k += 1;
    }
    scale
}

/// The sum of squares of the selected samples of one frame, each divided by `scale`.
fn frame_square_sum<S: MonitorSample>(
    input: &AudioChunk<S>,
    channels: &[usize],
    frame: usize,
    scale: S,
    zero: S,
) -> (sum: S)
    requires
        forall|i: int|
            0 <= i < channels@.len() ==> (#[trigger] channels@[i]) < input.waveforms@.len()
                && frame < input.waveforms@[channels@[i] as int]@.len(),
        call_ensures(S::zero, (), zero),
    ensures
        scaled_square_sum(frame_samples(input.waveforms@, channels@, frame as int), scale, sum),
{
    let ghost xs = frame_samples(input.waveforms@, channels@, frame as int);
    let nch = channels.len();
    let mut sum = zero;
    let mut k: usize = 0;
    proof {
        assert(xs.take(0) =~= Seq::<S>::empty());
    }
    while k < nch
        invariant
            nch == channels@.len(),
            xs == frame_samples(input.waveforms@, channels@, frame as int),
            forall|i: int|
                0 <= i < channels@.len() ==> (#[trigger] channels@[i]) < input.waveforms@.len()
                    && frame < input.waveforms@[channels@[i] as int]@.len(),
            k <= nch,
            scaled_square_sum(xs.take(k as int), scale, sum),
        decreases nch - k,
    {
        let sample = input.waveforms[channels[k]][frame];
        let normalized = sample.divide(scale);
        let square = normalized.times(normalized);
        let ghost prev = sum;
        sum = sum.plus(square);
        proof {
            assert(xs[k as int] == sample);
            lemma_square_sum_step(xs, k as int, scale, prev, normalized, square, sum);
        }
        k += 1;
    }
    proof {
        assert(xs.take(nch as int) =~= xs);
    }
    sum
}

/// Root mean square across the selected channels at each frame. Scaling by the
/// largest magnitude avoids squaring large finite samples; the second pass needs
/// no extra scratch storage.
fn rms_channels<S: MonitorSample>(input: &AudioChunk<S>, channels: &[usize], scratch: &mut [S])
    requires
        valid_selection(input.waveforms@, channels@, old(scratch)@.len()),
    ensures
        final(scratch)@.len() == old(scratch)@.len(),
        forall|f: int|
            0 <= f < old(scratch)@.len() ==> is_channel_rms(
                frame_samples(input.waveforms@, channels@, f),
                #[trigger] final(scratch)@[f],
            ),
{
    let ghost w = input.waveforms@;
    let ghost chs = channels@;
    let n = scratch.len();
    let count = S::from_count(channels.len());
    let zero = S::zero();
    let mut frame: usize = 0;
    while frame < n
        invariant
            n == scratch@.len(),
            valid_selection(w, chs, n as nat),
            w == input.waveforms@,
            chs == channels@,
            call_ensures(S::from_count, (chs.len() as usize,), count),
            call_ensures(S::zero, (), zero),
            frame <= n,
            forall|f: int|
                0 <= f < frame ==> is_channel_rms(frame_samples(w, chs, f), #[trigger] scratch@[f]),
        decreases n - frame,
    {
        let ghost xs = frame_samples(w, chs, frame as int);
        let scale = frame_scale(input, channels, frame, zero);
        let zero_scale = scale.is_zero();
        let passes = if zero_scale {
            true
        } else {
            !scale.is_finite()
        };
        if passes {
            scratch[frame] = scale;
            assert(is_channel_rms(xs, scale)) by {
                assert(scale_of(xs, scale));
            }
        } else {
            let sum = frame_square_sum(input, channels, frame, scale, zero);
            let mean = sum.divide(count);
            let one = S::one();
            let clamped = mean.minimum(one);
            let root = clamped.sqrt();
            let out = scale.times(root);
            proof {
                assert(xs.len() as usize == chs.len() as usize);
                assert(rms_from_scale(xs, scale, out));
                assert(scale_of(xs, scale));
            }
            scratch[frame] = out;
        }
        frame += 1;
    }
}

/// Reduces the selected monitor channels of `input` into `scratch`, frame by frame.
///
/// `channels` must be nonempty, its indices valid, and every selected waveform
/// must have the scratch length. Entries are neither sorted nor deduplicated.
/// Sum deliberately stays signed: downstream level estimators rectify their input.
///
/// Sum and Max keep their accumulation order: Sum copies the first selected
/// waveform and adds each further one in selection order; Max starts from the
/// first magnitude and takes the larger of the running peak and each further
/// magnitude. Rms stops at the first NaN magnitude and returns NaN, returns a zero
/// or non-finite scale unchanged, and otherwise computes the scaled mean of
/// squares. The previous contents of `scratch` do not affect the result.
pub fn aggregate_monitor_channels<S: MonitorSample>(
    input: &AudioChunk<S>,
    channels: &[usize],
    mode: MonitorMode,
    scratch: &mut [S],
)
    requires
        valid_selection(input.waveforms@, channels@, old(scratch)@.len()),
    ensures
        final(scratch)@.len() == old(scratch)@.len(),
        forall|f: int|
            0 <= f < old(scratch)@.len() ==> reduced_by(
                mode,
                frame_samples(input.waveforms@, channels@, f),
                #[trigger] final(scratch)@[f],
            ),
{
    match mode {
        MonitorMode::Sum => sum_channels(input, channels, scratch),
        MonitorMode::Max => peak_channels(input, channels, scratch),
        MonitorMode::Rms => rms_channels(input, channels, scratch),
    }
}

} // verus!
