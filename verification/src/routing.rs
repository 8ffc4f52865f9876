//! How a project's routing becomes the render graph's: bus tracks get input slots, outputs and
//! sends are addressed by slot, and each instrument track's event buffer is sized so the audio
//! thread never has to grow it.
//!
//! The document addresses tracks by id; the graph addresses buses by their position in its list
//! of bus tracks. Every lookup happens here, once, when the graph is built.
use vstd::prelude::*;
use crate::latency::RouteNode;
use crate::schedule::{ScheduledEvent, max_events_in_window, max_sounding_notes, sorted_by_frame};

verus! {

/// Room left in each track's per-block event buffer for notes played from the UI.
pub const AUDITION_HEADROOM: usize = 16;

/// Room the note chase needs on top of what it re-issues: the release that clears the old
/// position before the notes belonging to the new one go in.
pub const CHASE_HEADROOM: usize = 1;

/// One track of the document as the routing sees it.
#[derive(Clone, Debug, PartialEq, Eq)]
pub struct TrackLayout {
    /// The track's id.
    pub id: u64,
    /// Whether the track is a bus.
    pub is_bus: bool,
    /// The id of the bus the track's output goes to; `None` for the master.
    pub output: Option<u64>,
    /// The id of the track each send feeds, in send order.
    pub sends: Vec<u64>,
}

/// Position of the first track with id `id` among the first `n` tracks.
pub open spec fn track_index(tracks: Seq<TrackLayout>, id: u64, n: nat) -> Option<nat>
    decreases n,
{
    if n == 0 || n > tracks.len() {
        None
    } else {
        match track_index(tracks, id, (n - 1) as nat) {
            Some(i) => Some(i),
            None => if tracks[n - 1].id == id {
                Some((n - 1) as nat)
            } else {
                None
            },
        }
    }
}

/// How many of the first `n` tracks are buses.
pub open spec fn buses_before(tracks: Seq<TrackLayout>, n: nat) -> nat
    decreases n,
{
    if n == 0 || n > tracks.len() {
        0
    } else {
        buses_before(tracks, (n - 1) as nat) + if tracks[n - 1].is_bus {
            1nat
        } else {
            0nat
        }
    }
}

/// The input slot of the bus with id `id`: its position among the project's bus tracks. Nothing
/// when no track has that id or the track is not a bus.
pub open spec fn bus_slot(tracks: Seq<TrackLayout>, id: u64) -> Option<usize> {
    match track_index(tracks, id, tracks.len()) {
        Some(i) => if tracks[i as int].is_bus {
            Some(buses_before(tracks, i) as usize)
        } else {
            None
        },
        None => None,
    }
}

/// The slots a track's sends feed, in send order, leaving out every send whose target is not a
/// bus of this project; over the first `n` sends.
pub open spec fn send_slots(tracks: Seq<TrackLayout>, sends: Seq<u64>, n: nat) -> Seq<usize>
    decreases n,
{
    if n == 0 || n > sends.len() {
        Seq::empty()
    } else {
        let rest = send_slots(tracks, sends, (n - 1) as nat);
        match bus_slot(tracks, sends[n - 1]) {
            Some(slot) => rest.push(slot),
            None => rest,
        }
    }
}

/// The routing node of one track.
pub open spec fn route_of(tracks: Seq<TrackLayout>, track: TrackLayout) -> (Option<usize>, Seq<usize>, bool) {
    (
        match track.output {
            Some(id) => bus_slot(tracks, id),
            None => None,
        },
        send_slots(tracks, track.sends@, track.sends@.len()),
        track.is_bus,
    )
}

/// The positions of the project's bus tracks, which is the order of the graph's bus inputs.
pub fn bus_tracks(tracks: &Vec<TrackLayout>) -> (buses: Vec<usize>)
    ensures
        buses@.len() == buses_before(tracks@, tracks@.len()),
        forall|k: int|
            0 <= k < buses@.len() ==> #[trigger] buses@[k] < tracks@.len() && tracks@[buses@[k] as int].is_bus
                && buses_before(tracks@, buses@[k] as nat) == k,
{
    let mut buses: Vec<usize> = Vec::new();
    let mut i: usize = 0;
    while i < tracks.len()
        invariant
            i <= tracks.len(),
            buses@.len() == buses_before(tracks@, i as nat),
            forall|k: int|
                0 <= k < buses@.len() ==> #[trigger] buses@[k] < i && tracks@[buses@[k] as int].is_bus
                    && buses_before(tracks@, buses@[k] as nat) == k,
        decreases tracks.len() - i,
    {
        if tracks[i].is_bus {
            buses.push(i);
        }
        i = i + 1;
    }
    buses
}

/// Looks up the input slot of the bus with id `id`.
pub fn find_bus_slot(tracks: &Vec<TrackLayout>, id: u64) -> (slot: Option<usize>)
    ensures
        slot == bus_slot(tracks@, id),
{
    let mut i: usize = 0;
    let mut buses: usize = 0;
    while i < tracks.len()
        invariant
            i <= tracks.len(),
            track_index(tracks@, id, i as nat) is None,
            buses == buses_before(tracks@, i as nat),
            buses <= i,
        decreases tracks.len() - i,
    {
        if tracks[i].id == id {
            proof {
                lemma_track_index_stays(tracks@, id, (i + 1) as nat, tracks@.len());
            }
            if tracks[i].is_bus {
                return Some(buses);
            } else {
                return None;
            }
        }
        if tracks[i].is_bus {
            buses = buses + 1;
        }
        i = i + 1;
    }
    None
}

/// Once a track with the id has been found, looking further finds the same one.
pub proof fn lemma_track_index_stays(tracks: Seq<TrackLayout>, id: u64, n: nat, m: nat)
    requires
        n <= m <= tracks.len(),
        track_index(tracks, id, n) is Some,
    ensures
        track_index(tracks, id, m) == track_index(tracks, id, n),
    decreases m,
{
    if m > n {
        lemma_track_index_stays(tracks, id, n, (m - 1) as nat);
    }
}

/// Resolves every track's output and sends to bus slots: the routing the latency plan and the
/// render loop walk.
///
/// An output naming something that is not a bus of this project goes to the master, and a send
/// naming one is dropped: a route the document should already have repaired is never followed
/// into the wrong slot.
pub fn route_tracks(tracks: &Vec<TrackLayout>) -> (nodes: Vec<RouteNode>)
    ensures
        nodes@.len() == tracks@.len(),
        forall|i: int|
            0 <= i < nodes@.len() ==> ((#[trigger] nodes@[i]).output, nodes@[i].sends@, nodes@[i].is_bus)
                == route_of(tracks@, tracks@[i]),
{
    let mut nodes: Vec<RouteNode> = Vec::new();
    let mut i: usize = 0;
    while i < tracks.len()
        invariant
            i <= tracks.len(),
            nodes@.len() == i,
            forall|k: int|
                0 <= k < i ==> ((#[trigger] nodes@[k]).output, nodes@[k].sends@, nodes@[k].is_bus)
                    == route_of(tracks@, tracks@[k]),
        decreases tracks.len() - i,
    {
        let track = &tracks[i];
        let output = match track.output {
            Some(id) => find_bus_slot(tracks, id),
            None => None,
        };
        let mut sends: Vec<usize> = Vec::new();
        let mut s: usize = 0;
        while s < track.sends.len()
            invariant
                s <= track.sends.len(),
                sends@ == send_slots(tracks@, track.sends@, s as nat),
            decreases track.sends.len() - s,
        {
            match find_bus_slot(tracks, track.sends[s]) {
                Some(slot) => sends.push(slot),
                None => {},
            }
            s = s + 1;
        }
        nodes.push(RouteNode { output, sends, is_bus: track.is_bus });
        i = i + 1;
    }
    nodes
}

/// Whether the track at `index` is heard under the solo resolution: tracks the resolution does
/// not cover are heard.
pub fn is_audible(solo: &Vec<bool>, index: usize) -> (audible: bool)
    ensures
        audible == if index < solo@.len() {
            solo@[index as int]
        } else {
            true
        },
{
    if index < solo.len() {
        solo[index]
    } else {
        true
    }
}

/// The capacity of an instrument track's per-block event buffer: the most scheduled events one
/// block of `max_block` frames can hold, the notes played from the UI, and the most notes a
/// chase can re-issue after a jump plus the release in front of them.
pub fn event_capacity(events: &Vec<ScheduledEvent>, max_block: usize) -> (capacity: usize)
    requires
        sorted_by_frame(events@),
        max_block > 0,
        events@.len() <= usize::MAX / 4,
    ensures
        ({
            let window = crate::schedule::fullest_window(events@, max_block as u64, events@.len());
            let sounding = crate::schedule::sounding_walk(events@).1;
            capacity == window + AUDITION_HEADROOM + sounding + CHASE_HEADROOM
        }),
{
    let window = max_events_in_window(events, max_block as u64);
    let sounding = max_sounding_notes(events);
    proof {
        crate::schedule::lemma_sounding_bound(events@);
    }
    window + AUDITION_HEADROOM + sounding + CHASE_HEADROOM
}

/// What a track plays, as far as how long the arrangement runs is concerned.
#[derive(Clone, Debug, PartialEq, Eq)]
pub enum SourceExtent {
    /// An instrument with its sorted schedule.
    Instrument { events: Vec<ScheduledEvent> },
    /// Audio clips, each as its start frame and length.
    Audio { clips: Vec<(u64, u64)> },
    /// A bus, with nothing of its own.
    Bus,
    /// A track that plays nothing.
    Silence,
}

/// The latest end among the first `n` clips, or none.
pub open spec fn clips_end(clips: Seq<(u64, u64)>, n: nat) -> int
    decreases n,
{
    if n == 0 || n > clips.len() {
        0
    } else {
        let rest = clips_end(clips, (n - 1) as nat);
        let here = clips[n - 1].0 + clips[n - 1].1;
        if rest >= here {
            rest
        } else {
            here
        }
    }
}

/// Where one track's material ends: its last scheduled event, its latest clip end, or nothing.
pub open spec fn source_end(source: SourceExtent) -> int {
    match source {
        SourceExtent::Instrument { events } => if events@.len() == 0 {
            0
        } else {
            events@.last().frame as int
        },
        SourceExtent::Audio { clips } => clips_end(clips@, clips@.len()),
        SourceExtent::Bus | SourceExtent::Silence => 0,
    }
}

/// Where the latest of the first `n` tracks' material ends.
pub open spec fn sources_end(sources: Seq<SourceExtent>, n: nat) -> int
    decreases n,
{
    if n == 0 || n > sources.len() {
        0
    } else {
        let rest = sources_end(sources, (n - 1) as nat);
        let here = source_end(sources[n - 1]);
        if rest >= here {
            rest
        } else {
            here
        }
    }
}

/// Every clip's end fits the timeline.
pub open spec fn clips_fit(sources: Seq<SourceExtent>) -> bool {
    forall|t: int|
        0 <= t < sources.len() ==> match #[trigger] sources[t] {
            SourceExtent::Audio { clips } => forall|c: int|
                0 <= c < clips@.len() ==> #[trigger] clips@[c].0 + clips@[c].1 <= u64::MAX,
            _ => true,
        }
}

/// The latest clip end is the end of one of the clips, and no clip ends after it.
pub proof fn lemma_clips_end_is_latest(clips: Seq<(u64, u64)>, n: nat)
    requires
        n <= clips.len(),
    ensures
        forall|c: int| 0 <= c < n ==> #[trigger] clips[c].0 + clips[c].1 <= clips_end(clips, n),
        clips_end(clips, n) == 0 || exists|c: int|
            0 <= c < n && #[trigger] clips[c].0 + clips[c].1 == clips_end(clips, n),
    decreases n,
{
    if n > 0 {
        lemma_clips_end_is_latest(clips, (n - 1) as nat);
        if clips_end(clips, n) != 0 && clips_end(clips, n) != clips_end(clips, (n - 1) as nat) {
            assert(clips[n - 1].0 + clips[n - 1].1 == clips_end(clips, n));
        }
    }
}

/// Where a track's material ends, when it has any: the last event of an instrument's schedule,
/// or the end of one of an audio track's clips.
pub open spec fn ends_there(source: SourceExtent, frame: int) -> bool {
    match source {
        SourceExtent::Instrument { events } => events@.len() > 0 && events@.last().frame == frame,
        SourceExtent::Audio { clips } => exists|c: int|
            0 <= c < clips@.len() && #[trigger] clips@[c].0 + clips@[c].1 == frame,
        SourceExtent::Bus | SourceExtent::Silence => false,
    }
}

/// Nothing of a track's own runs past `frame`: no clip ends after it, and an instrument's
/// last event is not after it.
pub open spec fn all_within(source: SourceExtent, frame: int) -> bool {
    match source {
        SourceExtent::Instrument { events } => events@.len() > 0 ==> events@.last().frame <= frame,
        SourceExtent::Audio { clips } => forall|c: int|
            0 <= c < clips@.len() ==> #[trigger] clips@[c].0 + clips@[c].1 <= frame,
        SourceExtent::Bus | SourceExtent::Silence => true,
    }
}

/// The arrangement ends where the latest material of any track ends: every track's clips and
/// notes are over by then, and some track's material ends exactly there (or there is none and
/// the end is the timeline's start).
pub proof fn lemma_end_is_latest_material(sources: Seq<SourceExtent>, n: nat)
    requires
        n <= sources.len(),
    ensures
        forall|t: int| 0 <= t < n ==> all_within(#[trigger] sources[t], sources_end(sources, n)),
        sources_end(sources, n) == 0 || exists|t: int|
            0 <= t < n && ends_there(#[trigger] sources[t], sources_end(sources, n)),
    decreases n,
{
    if n > 0 {
        lemma_end_is_latest_material(sources, (n - 1) as nat);
        let here = source_end(sources[n - 1]);
        let end = sources_end(sources, n);
        let last = sources[n - 1];
        match last {
            SourceExtent::Audio { clips } => {
                lemma_clips_end_is_latest(clips@, clips@.len());
            },
            _ => {},
        }
        assert forall|t: int| 0 <= t < n implies all_within(#[trigger] sources[t], end) by {
            if t < n - 1 {
                let src = sources[t];
                match src {
                    SourceExtent::Audio { clips } => {
                        assert forall|c: int| 0 <= c < clips@.len() implies #[trigger] clips@[c].0
                            + clips@[c].1 <= end by {
                            assert(all_within(src, sources_end(sources, (n - 1) as nat)));
                        }
                    },
                    _ => {
                        assert(all_within(src, sources_end(sources, (n - 1) as nat)));
                    },
                }
            }
        }
        if end != 0 && end == here {
            match last {
                SourceExtent::Audio { clips } => {
                    let c = choose|c: int|
                        0 <= c < clips@.len() && #[trigger] clips@[c].0 + clips@[c].1
                            == clips_end(clips@, clips@.len());
                    assert(ends_there(last, end));
                },
                _ => {
                    assert(ends_there(last, end));
                },
            }
        }
    }
}

/// The frame the arrangement's material runs to: the latest end of any track's notes or clips.
/// A bus never makes a project longer.
pub fn end_frame(sources: &Vec<SourceExtent>) -> (end: u64)
    requires
        clips_fit(sources@),
    ensures
        end == sources_end(sources@, sources@.len()),
        forall|t: int| 0 <= t < sources@.len() ==> all_within(#[trigger] sources@[t], end as int),
        end == 0 || exists|t: int| 0 <= t < sources@.len() && ends_there(#[trigger] sources@[t], end as int),
{
    let mut end: u64 = 0;
    let mut t: usize = 0;
    while t < sources.len()
        invariant
            t <= sources.len(),
            clips_fit(sources@),
            end == sources_end(sources@, t as nat),
        decreases sources.len() - t,
    {
        let here: u64 = match &sources[t] {
            SourceExtent::Instrument { events } => if events.len() == 0 {
                0
            } else {
                events[events.len() - 1].frame
            },
            SourceExtent::Audio { clips } => {
                let mut latest: u64 = 0;
                let mut c: usize = 0;
                while c < clips.len()
                    invariant
                        c <= clips.len(),
                        forall|k: int| 0 <= k < clips@.len() ==> clips@[k].0 + clips@[k].1 <= u64::MAX,
                        latest == clips_end(clips@, c as nat),
                    decreases clips.len() - c,
                {
                    let (start, length) = clips[c];
                    let finish = start + length;
                    if finish > latest {
                        latest = finish;
                    }
                    c = c + 1;
                }
                latest
            },
            SourceExtent::Bus | SourceExtent::Silence => 0,
        };
        if here > end {
            end = here;
        }
        t = t + 1;
    }
    proof {
        lemma_end_is_latest_material(sources@, sources@.len());
    }
    end
}

} // verus!
