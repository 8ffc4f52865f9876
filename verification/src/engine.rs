//! What the audio thread decides between blocks: what a command does, whether it may be applied
//! now, how a device buffer is cut into render blocks, and what it tells the UI about a
//! count-in.
//!
//! The audio thread never allocates. Anything a command displaces (a replaced graph, a one-shot
//! buffer, a solo resolution) travels back to the UI thread to be freed; when the way back is
//! full it waits in a fixed stash, and a command that could add to a full stash waits until the
//! next callback instead of being applied.
use vstd::prelude::*;
use crate::error::EngineError;
use crate::metronome::CountIn;

verus! {

/// Displaced items the audio thread can hold before it stops applying commands that displace
/// more.
pub const RETIRED_GRAPH_SLOTS: usize = 8;

/// One instruction for the audio thread, as far as deciding what it does is concerned.
#[derive(Copy, Clone, Debug, PartialEq, Eq)]
pub enum CommandKind {
    /// Replaces the whole graph with one of `track_count` tracks.
    SetGraph { track_count: usize },
    /// Starts the transport.
    Play,
    /// Asks for `count` before the transport rolls.
    CountIn { count: CountIn },
    /// Stops the transport and releases every sounding note.
    Stop,
    /// Moves the playhead.
    Seek { frames: u64 },
    /// Sets the loop region and whether it is active.
    SetLoop { enabled: bool, start: u64, end: u64 },
    /// Moves a track fader.
    SetTrackGain,
    /// Moves a track's pan control.
    SetTrackPan,
    /// Toggles a track's mute.
    SetTrackMute,
    /// Installs a new solo resolution.
    SetSoloResolution,
    /// Moves one of a track's send levels.
    SetSendLevel,
    /// Moves the master fader.
    SetMasterGain,
    /// Sets the master pan.
    SetMasterPan,
    /// Writes an effect parameter.
    SetEffectParam,
    /// Writes a parameter on a track's instrument.
    SetInstrumentParam,
    /// Plays a note now.
    NoteOn,
    /// Releases an auditioned note.
    NoteOff,
    /// Bends a track's notes.
    PitchBend,
    /// Moves one of a track's controllers.
    Controller,
    /// Plays a one-shot buffer on a track; `displaces` says whether the track is already holding
    /// one, which the new buffer replaces.
    PlayOneShot { displaces: bool },
    /// Stops a track's one-shot.
    StopOneShot,
    /// Turns the metronome on or off.
    SetMetronome,
    /// Silences everything at once.
    Panic,
}

/// What a command hands back to the UI thread to be freed.
#[derive(Copy, Clone, Debug, PartialEq, Eq)]
pub enum Retire {
    /// Nothing.
    Nothing,
    /// What the command replaced: the previous graph, or the one-shot buffer it displaced.
    Previous,
    /// The command's own payload, which has nowhere to go.
    Payload,
}

/// What the transport is told, besides starting or stopping.
#[derive(Copy, Clone, Debug, PartialEq, Eq)]
pub enum TransportAction {
    /// Nothing.
    Keep,
    /// Counts `count` in before rolling.
    CountIn(CountIn),
    /// Moves the playhead to `frames`.
    Seek { frames: u64 },
    /// Sets the loop region and whether playback wraps at its end.
    SetLoop { enabled: bool, start: u64, end: u64 },
}

/// What applying a command does.
#[derive(Copy, Clone, Debug, PartialEq, Eq)]
pub struct CommandPlan {
    /// What the transport is handed: a count-in, a new position or a loop region.
    pub transport: TransportAction,
    /// The transport's new play state, when the command sets it.
    pub playing: Option<bool>,
    /// Whether a running count-in is abandoned.
    pub cancel_count_in: bool,
    /// Whether every sounding voice in the graph is released.
    pub reset_voices: bool,
    /// Whether the command's value is written into the graph.
    pub reaches_graph: bool,
    /// Whether the graph's compensation is stale is published again.
    pub publish_latency: bool,
    /// What goes back to the UI thread.
    pub retire: Retire,
    /// The first track whose meter is cleared, when tracks may have gone away.
    pub clear_meters_from: Option<usize>,
    /// Whether every meter and clip latch is cleared.
    pub reset_meters: bool,
}

/// Whether a command can displace something that has to travel back to the UI thread.
pub open spec fn retires(kind: CommandKind) -> bool {
    kind is SetGraph || kind is SetSoloResolution || kind is PlayOneShot
}

/// Whether a command may displace something that has to travel back to the UI thread.
pub fn command_may_retire(kind: CommandKind) -> (may: bool)
    ensures
        may == retires(kind),
{
    match kind {
        CommandKind::SetGraph { .. } | CommandKind::SetSoloResolution | CommandKind::PlayOneShot { .. } => true,
        _ => false,
    }
}

/// Whether a command only writes a value into the graph, and so does nothing without one.
pub open spec fn writes_graph(kind: CommandKind) -> bool {
    ||| kind is SetTrackGain
    ||| kind is SetTrackPan
    ||| kind is SetTrackMute
    ||| kind is SetSoloResolution
    ||| kind is SetSendLevel
    ||| kind is SetMasterGain
    ||| kind is SetMasterPan
    ||| kind is SetEffectParam
    ||| kind is SetInstrumentParam
    ||| kind is NoteOn
    ||| kind is NoteOff
    ||| kind is PitchBend
    ||| kind is Controller
    ||| kind is PlayOneShot
    ||| kind is StopOneShot
    ||| kind is SetMetronome
    ||| kind is Panic
}

/// What applying `kind` hands back to the UI thread, given whether a graph is installed.
pub open spec fn retire_of(kind: CommandKind, has_graph: bool) -> Retire {
    match kind {
        CommandKind::SetGraph { .. } => if has_graph {
            Retire::Previous
        } else {
            Retire::Nothing
        },
        CommandKind::SetSoloResolution => Retire::Payload,
        CommandKind::PlayOneShot { displaces } => if !has_graph {
            Retire::Payload
        } else if displaces {
            Retire::Previous
        } else {
            Retire::Nothing
        },
        _ => Retire::Nothing,
    }
}

/// Decides what applying `kind` does, given whether a graph is installed.
///
/// Stopping releases the voices and abandons a count nobody is going to play to; seeking does
/// the same, since the count was for a position the transport is no longer at. Replacing the
/// graph clears the meters of tracks that may be gone and hands the old graph back. A new solo
/// resolution always goes back once installed; a one-shot hands back the one it replaced, if
/// the track was holding one, and goes back untouched itself when there is no graph to play on.
pub fn plan_command(kind: CommandKind, has_graph: bool) -> (plan: CommandPlan)
    ensures
        plan.playing == if kind is Play {
            Some(true)
        } else if kind is Stop {
            Some(false)
        } else {
            None::<bool>
        },
        plan.transport == match kind {
            CommandKind::CountIn { count } => TransportAction::CountIn(count),
            CommandKind::Seek { frames } => TransportAction::Seek { frames },
            CommandKind::SetLoop { enabled, start, end } => TransportAction::SetLoop {
                enabled,
                start,
                end,
            },
            _ => TransportAction::Keep,
        },
        plan.cancel_count_in == (kind is Stop || kind is Seek),
        plan.reset_voices == ((kind is Stop || kind is Seek) && has_graph),
        plan.reaches_graph == (writes_graph(kind) && has_graph),
        plan.publish_latency == (kind is SetGraph || kind is SetEffectParam),
        plan.retire == retire_of(kind, has_graph),
        plan.clear_meters_from == match kind {
            CommandKind::SetGraph { track_count } => Some(track_count),
            _ => None::<usize>,
        },
        plan.reset_meters == (kind is Panic),
{
    let quiet = CommandPlan {
        transport: TransportAction::Keep,
        playing: None,
        cancel_count_in: false,
        reset_voices: false,
        reaches_graph: false,
        publish_latency: false,
        retire: Retire::Nothing,
        clear_meters_from: None,
        reset_meters: false,
    };
    match kind {
        CommandKind::SetGraph { track_count } => CommandPlan {
            publish_latency: true,
            retire: if has_graph {
                Retire::Previous
            } else {
                Retire::Nothing
            },
            clear_meters_from: Some(track_count),
            ..quiet
        },
        CommandKind::Play => CommandPlan { playing: Some(true), ..quiet },
        CommandKind::CountIn { count } => CommandPlan {
            transport: TransportAction::CountIn(count),
            ..quiet
        },
        CommandKind::Stop => CommandPlan {
            playing: Some(false),
            cancel_count_in: true,
            reset_voices: has_graph,
            ..quiet
        },
        CommandKind::Seek { frames } => CommandPlan {
            transport: TransportAction::Seek { frames },
            cancel_count_in: true,
            reset_voices: has_graph,
            ..quiet
        },
        CommandKind::SetLoop { enabled, start, end } => CommandPlan {
            transport: TransportAction::SetLoop { enabled, start, end },
            ..quiet
        },
        CommandKind::SetSoloResolution => CommandPlan {
            reaches_graph: has_graph,
            retire: Retire::Payload,
            ..quiet
        },
        CommandKind::SetEffectParam => CommandPlan {
            reaches_graph: has_graph,
            publish_latency: true,
            ..quiet
        },
        CommandKind::PlayOneShot { displaces } => CommandPlan {
            reaches_graph: has_graph,
            retire: if !has_graph {
                Retire::Payload
            } else if displaces {
                Retire::Previous
            } else {
                Retire::Nothing
            },
            ..quiet
        },
        CommandKind::Panic => CommandPlan { reaches_graph: has_graph, reset_meters: true, ..quiet },
        _ => CommandPlan { reaches_graph: has_graph, ..quiet },
    }
}

/// Whether a command picked off the queue is applied now (`true`) or held until the next
/// callback (`false`): one that may displace something waits while the stash is full.
pub fn admit_command(stashed: usize, kind: CommandKind) -> (admitted: bool)
    ensures
        admitted == !(stashed == RETIRED_GRAPH_SLOTS && retires(kind)),
{
    !(stashed == RETIRED_GRAPH_SLOTS && command_may_retire(kind))
}

/// Whether a command held back by an earlier callback is applied now.
pub fn resume_deferred(stashed: usize) -> (resume: bool)
    ensures
        resume == (stashed < RETIRED_GRAPH_SLOTS),
{
    stashed < RETIRED_GRAPH_SLOTS
}

/// The stash never overflows: a command is only applied while there is room for whatever it
/// hands back, so applying it leaves the stash within its slots even when nothing it displaces
/// can be sent on at once.
pub proof fn lemma_stash_never_overflows(stashed: usize, kind: CommandKind, has_graph: bool)
    requires
        stashed <= RETIRED_GRAPH_SLOTS,
        !(stashed == RETIRED_GRAPH_SLOTS && retires(kind)),
    ensures
        stashed + (if retire_of(kind, has_graph) == Retire::Nothing {
            0int
        } else {
            1int
        }) <= RETIRED_GRAPH_SLOTS,
{
}

/// How the engine answers a command the queue refused.
#[derive(Copy, Clone, Debug, PartialEq, Eq)]
pub enum QueueRefusal {
    /// The queue is full; the caller should retry on the next UI frame.
    Full,
    /// The audio thread is gone.
    Disconnected,
}

/// What sending a command reports, given whether the queue refused it and why.
pub fn send_outcome(refusal: Option<QueueRefusal>) -> (outcome: Result<(), EngineError>)
    ensures
        outcome == match refusal {
            None => Ok::<(), EngineError>(()),
            Some(QueueRefusal::Full) => Err::<(), EngineError>(EngineError::CommandQueueFull),
            Some(QueueRefusal::Disconnected) => Err::<(), EngineError>(EngineError::NotRunning),
        },
{
    match refusal {
        None => Ok(()),
        Some(QueueRefusal::Full) => Err(EngineError::CommandQueueFull),
        Some(QueueRefusal::Disconnected) => Err(EngineError::NotRunning),
    }
}

/// How an interleaved device buffer of `len` samples over `channels` channels is laid out: the
/// whole frames it holds, and where the trailing partial frame (which is written as silence)
/// starts.
pub fn interleaved_frames(len: usize, channels: usize) -> (layout: (usize, usize))
    requires
        channels >= 1,
    ensures
        layout.0 == len / channels,
        layout.1 == (len / channels) * channels,
        layout.1 <= len,
        len - layout.1 < channels,
{
    let frames = len / channels;
    proof {
        vstd::arithmetic::div_mod::lemma_fundamental_div_mod(len as int, channels as int);
        vstd::arithmetic::mul::lemma_mul_is_commutative(channels as int, frames as int);
    }
    (frames, frames * channels)
}

/// The next render block of a device buffer of `frames` frames, `written` of them done: as much
/// as is left, at most the prepared block size.
pub fn next_device_block(frames: usize, written: usize, max_block: usize) -> (count: usize)
    requires
        written < frames,
        max_block >= 1,
    ensures
        count == if frames - written < max_block {
            frames - written
        } else {
            max_block as int
        },
        1 <= count <= frames - written,
{
    if frames - written < max_block {
        frames - written
    } else {
        max_block
    }
}

/// What the audio thread tells the UI about a count-in after a callback, given the frames left
/// until the count ends (if one is running) and whether the last callback was counting.
///
/// Only while there is a count to report, and once more when it ends: the UI writes the count it
/// is about to ask for before sending the command, and a zero published every callback would
/// read as "the count is over" before the command had even arrived. Returns the value to publish,
/// if any, and whether this callback was counting.
pub fn count_in_report(left: Option<u64>, counting: bool) -> (report: (Option<u64>, bool))
    ensures
        report == match left {
            Some(frames) => (Some(frames), true),
            None => if counting {
                (Some(0u64), false)
            } else {
                (None::<u64>, false)
            },
        },
{
    match left {
        Some(frames) => (Some(frames), true),
        None => if counting {
            (Some(0), false)
        } else {
            (None, false)
        },
    }
}

} // verus!
