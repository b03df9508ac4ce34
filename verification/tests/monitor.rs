//! Reduction of monitor channels on double-precision samples.
use camillalib::audiochunk::AudioChunk;
use camillalib::config::MonitorMode;
use camillalib::processors::monitor::aggregate_monitor_channels;
use camillalib::sample::MonitorSample;

type CamillaFloat = f64;

#[derive(Clone, Copy, Debug, PartialEq)]
struct Sample(CamillaFloat);

impl MonitorSample for Sample {
    fn zero() -> Self {
        Sample(0.0)
    }
    fn one() -> Self {
        Sample(1.0)
    }
    fn nan() -> Self {
        Sample(CamillaFloat::NAN)
    }
    fn from_count(count: usize) -> Self {
        Sample(count as CamillaFloat)
    }
    fn plus(self, other: Self) -> Self {
        Sample(self.0 + other.0)
    }
    fn times(self, other: Self) -> Self {
        Sample(self.0 * other.0)
    }
    fn divide(self, other: Self) -> Self {
        Sample(self.0 / other.0)
    }
    fn abs(self) -> Self {
        Sample(self.0.abs())
    }
    fn maximum(self, other: Self) -> Self {
        Sample(self.0.max(other.0))
    }
    fn minimum(self, other: Self) -> Self {
        Sample(self.0.min(other.0))
    }
    fn sqrt(self) -> Self {
        Sample(self.0.sqrt())
    }
    fn is_nan(self) -> bool {
        self.0.is_nan()
    }
    fn is_finite(self) -> bool {
        self.0.is_finite()
    }
    fn is_zero(self) -> bool {
        self.0 == 0.0
    }
}

fn chunk_of(waveforms: &[Vec<CamillaFloat>]) -> AudioChunk<Sample> {
    let frames = waveforms[0].len();
    AudioChunk::new(
        waveforms
            .iter()
            .map(|w| w.iter().map(|&s| Sample(s)).collect())
            .collect(),
        Sample(1.0),
        Sample(-1.0),
        frames,
        frames,
    )
}

fn reduce_all(
    waveforms: &[Vec<CamillaFloat>],
    channels: &[usize],
    mode: MonitorMode,
    fill: CamillaFloat,
) -> Vec<CamillaFloat> {
    let chunk = chunk_of(waveforms);
    let mut scratch = vec![Sample(fill); waveforms[channels[0]].len()];
    aggregate_monitor_channels(&chunk, channels, mode, &mut scratch);
    scratch.iter().map(|s| s.0).collect()
}

fn reduce(samples: &[CamillaFloat], channels: &[usize], mode: MonitorMode) -> CamillaFloat {
    let chunk = AudioChunk::new(
        samples.iter().map(|&sample| vec![Sample(sample)]).collect(),
        Sample(1.0),
        Sample(-1.0),
        1,
        1,
    );
    let mut scratch = [Sample(123.0)];
    aggregate_monitor_channels(&chunk, channels, mode, &mut scratch);
    scratch[0].0
}

fn close(actual: CamillaFloat, expected: CamillaFloat) {
    let tolerance = 16.0 * CamillaFloat::EPSILON * expected.abs().max(1.0);
    assert!(
        (actual - expected).abs() <= tolerance,
        "{actual} != {expected}"
    );
}

#[test]
fn finite_examples() {
    let cases: &[(&[CamillaFloat], [CamillaFloat; 3])] = &[
        (&[0.5], [0.5, 0.5, 0.5]),
        (&[-0.5], [-0.5, 0.5, 0.5]),
        (&[0.5, 0.0], [0.5, 0.5, 0.5 / CamillaFloat::sqrt(2.0)]),
        (&[0.0, 0.5], [0.5, 0.5, 0.5 / CamillaFloat::sqrt(2.0)]),
        (&[0.5, 0.5], [1.0, 0.5, 0.5]),
        (&[0.5, -0.5], [0.0, 0.5, 0.5]),
        (&[0.0, 0.0], [0.0, 0.0, 0.0]),
        (&[0.5; 4], [2.0, 0.5, 0.5]),
    ];
    for &(samples, expected) in cases {
        let channels: Vec<_> = (0..samples.len()).collect();
        for (mode, want) in [MonitorMode::Sum, MonitorMode::Max, MonitorMode::Rms]
            .into_iter()
            .zip(expected)
        {
            close(reduce(samples, &channels, mode), want);
        }
    }
}

#[test]
fn subsets_repetitions_and_polarity() {
    let samples = [0.5, -0.25, 8.0];
    close(reduce(&samples, &[0, 1], MonitorMode::Sum), 0.25);
    close(reduce(&samples, &[0, 0, 1], MonitorMode::Sum), 0.75);
    close(
        reduce(&samples, &[0, 0, 1], MonitorMode::Rms),
        CamillaFloat::sqrt(0.1875),
    );
    for mode in [MonitorMode::Max, MonitorMode::Rms] {
        let expected = reduce(&samples, &[0, 1], mode);
        for signs in [[1.0, 1.0], [-1.0, 1.0], [1.0, -1.0], [-1.0, -1.0]] {
            let changed = [samples[0] * signs[0], samples[1] * signs[1]];
            close(reduce(&changed, &[0, 1], mode), expected);
            close(reduce(&changed, &[1, 0], mode), expected);
        }
    }
}

#[test]
fn rms_extreme_finite_values() {
    for scale in [CamillaFloat::MAX, CamillaFloat::MIN_POSITIVE, 4.0] {
        let identical = reduce(&[scale, -scale], &[0, 1], MonitorMode::Rms);
        assert_eq!(identical, scale);
        let diluted = reduce(&[scale, 0.0], &[0, 1], MonitorMode::Rms);
        assert!(diluted.is_finite() && diluted > 0.0);
        close(diluted / scale, CamillaFloat::sqrt(0.5));
    }
    let tiny = CamillaFloat::from_bits(1);
    assert_eq!(reduce(&[tiny, tiny], &[0, 1], MonitorMode::Rms), tiny);
}

#[test]
fn exceptional_values_are_explicit() {
    let nan = CamillaFloat::NAN;
    let inf = CamillaFloat::INFINITY;
    for samples in [[nan, 0.5], [0.5, nan], [inf, nan], [nan, inf]] {
        assert!(reduce(&samples, &[0, 1], MonitorMode::Rms).is_nan());
    }
    for samples in [[inf, 0.5], [-inf, 0.5], [inf, -inf]] {
        assert_eq!(reduce(&samples, &[0, 1], MonitorMode::Rms), inf);
    }
    for samples in [[nan, 0.5], [0.5, nan]] {
        assert_eq!(reduce(&samples, &[0, 1], MonitorMode::Max), 0.5);
    }
    assert!(reduce(&[nan, nan], &[0, 1], MonitorMode::Max).is_nan());
    assert!(reduce(&[inf, -inf], &[0, 1], MonitorMode::Sum).is_nan());
    assert!(reduce(&[nan, 0.5], &[0, 1], MonitorMode::Sum).is_nan());
    let negative_zero: CamillaFloat = -0.0;
    assert_eq!(
        reduce(&[-0.0], &[0], MonitorMode::Sum).to_bits(),
        negative_zero.to_bits()
    );
}

#[test]
fn sum_keeps_selection_order() {
    // Floating-point addition is not associative, so the order is observable.
    let samples = [1.0e16, 1.0, -1.0e16];
    assert_eq!(reduce(&samples, &[0, 1, 2], MonitorMode::Sum), 0.0);
    assert_eq!(reduce(&samples, &[0, 2, 1], MonitorMode::Sum), 1.0);
    assert_eq!(reduce(&samples, &[1, 0, 2], MonitorMode::Sum), 0.0);
}

#[test]
fn single_entry_reproduces_sample_or_magnitude() {
    for x in [0.75, -0.75, 0.0, -3.5] {
        assert_eq!(reduce(&[x], &[0], MonitorMode::Sum).to_bits(), x.to_bits());
        assert_eq!(reduce(&[x], &[0], MonitorMode::Max), x.abs());
    }
}

#[test]
fn rms_scaled_mean_of_squares() {
    // scale 4, squares of (1, 0.75, 0.5) sum to 1.8125, mean 1.8125 / 3
    let expected = 4.0 * (1.8125f64 / 3.0).sqrt();
    assert_eq!(reduce(&[4.0, -3.0, 2.0], &[0, 1, 2], MonitorMode::Rms), expected);
    assert_eq!(reduce(&[0.0, -0.0], &[0, 1], MonitorMode::Rms), 0.0);
}

#[test]
fn previous_scratch_contents_do_not_leak() {
    let waveforms = vec![vec![0.5, -0.25, 0.125], vec![-1.0, 2.0, 0.0]];
    for mode in [MonitorMode::Sum, MonitorMode::Max, MonitorMode::Rms] {
        let a = reduce_all(&waveforms, &[1, 0], mode, 123.0);
        let b = reduce_all(&waveforms, &[1, 0], mode, CamillaFloat::NAN);
        assert_eq!(a, b);
    }
}

#[test]
fn unselected_channels_do_not_matter() {
    let mut waveforms = vec![vec![0.5, -0.25], vec![9.0, 9.0], vec![-1.0, 2.0]];
    for mode in [MonitorMode::Sum, MonitorMode::Max, MonitorMode::Rms] {
        let before = reduce_all(&waveforms, &[2, 0], mode, 0.0);
        waveforms[1] = vec![CamillaFloat::NAN, -7.0];
        let after = reduce_all(&waveforms, &[2, 0], mode, 0.0);
        assert_eq!(before, after);
    }
}

#[test]
fn chunk_boundaries_do_not_change_the_stream() {
    let stream: Vec<Vec<CamillaFloat>> = (0..3)
        .map(|ch| {
            (0..12)
                .map(|i| ((i * 7 + ch * 5) % 11) as CamillaFloat * 0.3 - 1.4)
                .collect()
        })
        .collect();
    let channels = [2, 0, 2];
    for mode in [MonitorMode::Sum, MonitorMode::Max, MonitorMode::Rms] {
        let whole = reduce_all(&stream, &channels, mode, 0.0);
        for size in [1, 3, 5, 12] {
            let mut pieces = Vec::new();
            let mut start = 0;
            while start < 12 {
                let end = (start + size).min(12);
                let part: Vec<Vec<CamillaFloat>> =
                    stream.iter().map(|w| w[start..end].to_vec()).collect();
                pieces.extend(reduce_all(&part, &channels, mode, 0.0));
                start = end;
            }
            let whole_bits: Vec<u64> = whole.iter().map(|x| x.to_bits()).collect();
            let piece_bits: Vec<u64> = pieces.iter().map(|x| x.to_bits()).collect();
            assert_eq!(whole_bits, piece_bits);
        }
    }
}

#[test]
fn polarity_reversal_leaves_max_and_rms_unchanged() {
    let waveforms = vec![vec![0.5, -0.25, 3.0], vec![-1.5, 0.0, 2.0]];
    let flipped = vec![vec![-0.5, 0.25, -3.0], vec![-1.5, 0.0, 2.0]];
    for mode in [MonitorMode::Max, MonitorMode::Rms] {
        let a = reduce_all(&waveforms, &[0, 1], mode, 0.0);
        let b = reduce_all(&flipped, &[0, 1], mode, 0.0);
        assert_eq!(a, b);
    }
}

#[test]
fn max_ignores_selection_order_and_polarity() {
    let samples = [0.5, -3.0, 2.5, -0.0];
    let expected = reduce(&samples, &[0, 1, 2, 3], MonitorMode::Max);
    assert_eq!(expected, 3.0);
    let orders: [[usize; 4]; 4] = [[3, 2, 1, 0], [1, 0, 3, 2], [2, 3, 0, 1], [0, 2, 1, 3]];
    for order in orders {
        let flipped = [-samples[0], -samples[1], samples[2], samples[3]];
        assert_eq!(reduce(&samples, &order, MonitorMode::Max), expected);
        assert_eq!(reduce(&flipped, &order, MonitorMode::Max), expected);
    }
}

#[test]
fn audio_chunk_new_keeps_its_fields() {
    let chunk = AudioChunk::new(vec![vec![1u8, 2], vec![3, 4], vec![5, 6]], 9u8, 0u8, 2, 1);
    assert_eq!(chunk.channels, 3);
    assert_eq!(chunk.frames, 2);
    assert_eq!(chunk.valid_frames, 1);
    assert_eq!(chunk.maxval, 9);
    assert_eq!(chunk.minval, 0);
    assert_eq!(chunk.waveforms, vec![vec![1u8, 2], vec![3, 4], vec![5, 6]]);
}
