//! Windowed reduction of audio sample buffers for waveform rendering.
//!
//! A sample buffer is cut into consecutive, non-overlapping windows of a
//! fixed number of samples, the last window truncated to the remaining
//! tail. Each window is reduced either to its minimum and maximum
//! amplitude (a peak pair, for DAW-style waveform views) or to the
//! maximum of the absolute amplitudes (an envelope value, for compact
//! thumbnails). Amplitudes are fixed-point integers; converting to and
//! from the host's floating-point samples is the binding layer's job.

mod reducer;
mod windows;

pub use reducer::PeakPair;
pub use reducer::abs_of;
pub use reducer::extract_waveform_peaks;
pub use reducer::generate_waveform;
pub use reducer::is_window_peak;
pub use reducer::lemma_max_abs_is_peak;
pub use reducer::lemma_max_abs_nonneg;
pub use reducer::lemma_max_of_is_maximum;
pub use reducer::lemma_min_le_max;
pub use reducer::lemma_min_of_is_minimum;
pub use reducer::max_abs_of;
pub use reducer::max_of;
pub use reducer::min_of;
pub use windows::ceil_div;
pub use windows::lemma_window_count;
pub use windows::window;
