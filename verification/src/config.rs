use vstd::prelude::*;

verus! {

/// How the selected monitor channels are combined into one detector sample.
#[derive(Clone, Copy, Debug, PartialEq, Eq)]
pub enum MonitorMode {
    /// Signed sum of the selected samples, in selection order.
    Sum,
    /// Largest magnitude among the selected samples.
    Max,
    /// Root mean square across the selected samples at each frame.
    Rms,
}

} // verus!
