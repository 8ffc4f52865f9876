//! Errors the engine's own decisions can produce.
//!
//! Failures that carry a value from the audio backend, from the document model or a sample rate
//! belong to the layer that talks to those, which wraps this enum.
use vstd::prelude::*;

verus! {

/// Everything the engine's planning can refuse.
#[allow(inconsistent_fields)]
#[derive(Clone, Debug, PartialEq, Eq)]
pub enum EngineError {
    /// A requested host is not available in this build or on this platform.
    HostUnavailable(String),
    /// The host reported no default output device.
    NoOutputDevice,
    /// The host reported no default input device, so there is nothing to record from.
    NoInputDevice,
    /// The input device reports a frame wider than one preallocated callback buffer.
    CaptureChannelsTooWide {
        /// Channels reported by the device.
        channels: usize,
        /// Greatest frame width the fixed callback pool can retain atomically.
        limit: usize,
    },
    /// The device's sample format is not one the engine knows how to read or write.
    UnsupportedSampleFormat(String),
    /// An offline render was asked for a range whose end precedes its start.
    InvalidRange {
        /// First frame of the requested range.
        start: u64,
        /// One past the last frame of the requested range.
        end: u64,
    },
    /// An offline render covered more frames than the engine is willing to attempt.
    RenderTooLong {
        /// Frames the requested render would have covered.
        frames: u64,
        /// Largest span the engine will attempt.
        limit: u64,
    },
    /// A complete in-memory render would exceed its bounded sample allocation.
    RenderBufferTooLarge {
        /// Frames each output channel would contain.
        frames: usize,
        /// Number of output channels that would be retained.
        channels: usize,
        /// Greatest supported raw sample allocation, in bytes.
        limit_bytes: usize,
    },
    /// The allocator refused an otherwise bounded complete render buffer.
    RenderBufferAllocation {
        /// Frames each output channel would contain.
        frames: usize,
        /// Number of output channels that would be retained.
        channels: usize,
    },
    /// Flattening a clip would exceed the graph's bounded event allocation.
    ScheduleTooLarge {
        /// Clip whose expansion crossed the limit.
        clip: u64,
        /// Total track events the operation would require.
        events: u128,
        /// Greatest supported events on one track.
        limit: usize,
    },
    /// The allocator refused a bounded event reservation while preparing the graph.
    ScheduleAllocation {
        /// Clip being prepared.
        clip: u64,
        /// Events the track would contain after the reservation.
        events: usize,
    },
    /// Retaining another valid track would exceed the complete graph's event budget.
    ProjectScheduleTooLarge {
        /// Events the complete graph would retain.
        events: u128,
        /// Greatest supported event count in one graph.
        limit: usize,
    },
    /// Retaining another valid audio clip would exceed the complete graph's window budget.
    ProjectAudioScheduleTooLarge {
        /// Audio windows the complete graph would retain.
        windows: u128,
        /// Greatest supported audio-window count in one graph.
        limit: usize,
    },
    /// The allocator refused a bounded audio-window reservation while preparing the graph.
    AudioScheduleAllocation {
        /// Clip being prepared.
        clip: u64,
        /// Windows the current track would contain after the reservation.
        windows: usize,
    },
    /// The command queue was full; the caller should retry on the next UI frame.
    CommandQueueFull,
    /// The audio thread is gone, so commands can no longer be delivered.
    NotRunning,
    /// An offline render was stopped by whoever asked for it.
    RenderCancelled,
}

} // verus!
