use vstd::prelude::*;

verus! {

/// A block of audio: one waveform per channel.
pub struct AudioChunk<S> {
    pub frames: usize,
    pub channels: usize,
    pub maxval: S,
    pub minval: S,
    pub valid_frames: usize,
    pub waveforms: Vec<Vec<S>>,
}

impl<S> AudioChunk<S> {
    /// Builds a chunk from its waveforms; the channel count is the number of waveforms.
    pub fn new(
        waveforms: Vec<Vec<S>>,
        maxval: S,
        minval: S,
        frames: usize,
        valid_frames: usize,
    ) -> (chunk: Self)
        ensures
            chunk.waveforms@ == waveforms@,
            chunk.channels == waveforms@.len(),
            chunk.maxval == maxval,
            chunk.minval == minval,
            chunk.frames == frames,
            chunk.valid_frames == valid_frames,
    {
        let channels = waveforms.len();
        AudioChunk { frames, channels, maxval, minval, valid_frames, waveforms }
    }
}

} // verus!
