//! The decisions the block renderer makes around the signal: how an output buffer is cut into
//! segments, which scheduled events a segment delivers, which notes a jump of the playhead
//! brings back, and which part of an audio clip lands in a segment.
//!
//! The same renderer serves realtime playback and offline export, which is what makes an export
//! sound like what was heard; everything here is therefore exact to the frame.
use vstd::prelude::*;
use crate::schedule::{NoteKind, ScheduledEvent, sorted_by_frame};

verus! {

/// Number of MIDI pitches, and therefore the size of the chase table.
pub const PITCH_COUNT: usize = 128;

/// Length of the next segment of an output buffer: bounded by what is left, by the prepared
/// block size and, while the transport is rolling, by the distance to the loop end; never empty.
///
/// A stopped transport is never split at the loop end: it does not move, so it can never reach
/// it.
pub fn segment_frames(remaining: usize, max_block: usize, playing: bool, to_loop_end: Option<u64>) -> (frames: usize)
    ensures
        ({
            let bounded = if remaining < max_block {
                remaining
            } else {
                max_block
            };
            let cut = match to_loop_end {
                Some(distance) => if playing && distance < bounded {
                    distance as int
                } else {
                    bounded as int
                },
                None => bounded as int,
            };
            frames == if cut < 1 {
                1
            } else {
                cut
            }
        }),
        frames >= 1,
        remaining >= 1 ==> frames <= remaining,
        max_block >= 1 ==> frames <= max_block,
{
    let mut frames = if remaining < max_block {
        remaining
    } else {
        max_block
    };
    if playing {
        if let Some(distance) = to_loop_end {
            if distance < frames as u64 {
                frames = distance as usize;
            }
        }
    }
    if frames < 1 {
        1
    } else {
        frames
    }
}

/// How many of the events in `s` sit before `position`.
pub open spec fn count_before(s: Seq<ScheduledEvent>, position: u64) -> nat
    decreases s.len(),
{
    if s.len() == 0 {
        0
    } else {
        count_before(s.drop_last(), position) + if s.last().frame < position {
            1nat
        } else {
            0nat
        }
    }
}

/// In events sorted by frame, the ones before `position` are exactly the first
/// [`count_before`] of them.
pub proof fn lemma_count_before_splits(s: Seq<ScheduledEvent>, position: u64)
    requires
        sorted_by_frame(s),
    ensures
        count_before(s, position) <= s.len(),
        forall|i: int| 0 <= i < count_before(s, position) ==> #[trigger] s[i].frame < position,
        forall|i: int| count_before(s, position) <= i < s.len() ==> #[trigger] s[i].frame >= position,
    decreases s.len(),
{
    if s.len() > 0 {
        let rest = s.drop_last();
        assert(sorted_by_frame(rest));
        lemma_count_before_splits(rest, position);
        if s.last().frame < position {
            assert forall|i: int| 0 <= i < s.len() implies #[trigger] s[i].frame < position by {
                assert(s[i].frame <= s[s.len() - 1].frame);
            }
        } else {
            assert forall|i: int| count_before(s, position) <= i < s.len() implies #[trigger] s[i].frame
                >= position by {
                if i < s.len() - 1 {
                    assert(s[i] == rest[i]);
                }
            }
            assert forall|i: int| 0 <= i < count_before(s, position) implies #[trigger] s[i].frame
                < position by {
                assert(s[i] == rest[i]);
            }
        }
    }
}

/// Events before `position` can only be fewer than events before a later position.
pub proof fn lemma_count_before_monotonic(s: Seq<ScheduledEvent>, a: u64, b: u64)
    requires
        a <= b,
    ensures
        count_before(s, a) <= count_before(s, b),
    decreases s.len(),
{
    if s.len() > 0 {
        lemma_count_before_monotonic(s.drop_last(), a, b);
    }
}

/// The first event at or after `position` in events sorted by frame: a binary search, so
/// seeking and looping need no cursor.
pub fn partition_before(events: &Vec<ScheduledEvent>, position: u64) -> (index: usize)
    requires
        sorted_by_frame(events@),
    ensures
        index == count_before(events@, position),
{
    let mut low: usize = 0;
    let mut high: usize = events.len();
    while low < high
        invariant
            low <= high <= events.len(),
            sorted_by_frame(events@),
            forall|i: int| 0 <= i < low ==> #[trigger] events@[i].frame < position,
            forall|i: int| high <= i < events.len() ==> #[trigger] events@[i].frame >= position,
        decreases high - low,
    {
        let mid = low + (high - low) / 2;
        if events[mid].frame < position {
            proof {
                assert forall|i: int| 0 <= i < mid + 1 implies #[trigger] events@[i].frame
                    < position by {
                    assert(events@[i].frame <= events@[mid as int].frame);
                }
            }
            low = mid + 1;
        } else {
            proof {
                assert forall|i: int| mid <= i < events.len() implies #[trigger] events@[i].frame
                    >= position by {
                    assert(events@[mid as int].frame <= events@[i].frame);
                }
            }
            high = mid;
        }
    }
    proof {
        lemma_count_before_splits(events@, position);
        let c = count_before(events@, position) as int;
        if c < low {
            assert(events@[c].frame >= position);
        }
        if c > low {
            assert(events@[low as int].frame < position);
        }
    }
    low
}

/// One scheduled event delivered to a segment: which one, and how far into the segment.
#[derive(Copy, Clone, Debug, PartialEq, Eq)]
pub struct BlockEvent {
    /// Index of the event in the track's schedule.
    pub index: usize,
    /// Frame offset inside the segment.
    pub offset: u32,
}

/// The events a segment of `frames` frames at `start` delivers: those scheduled inside
/// `start..start + frames`, in order, as many as the `room` left in the event buffer holds.
pub open spec fn segment_events(s: Seq<ScheduledEvent>, start: u64, frames: usize, room: usize) -> Seq<
    BlockEvent,
> {
    let first = count_before(s, start) as int;
    let stop = count_before(s, (start + frames) as u64) as int;
    let n = if stop - first < room {
        stop - first
    } else {
        room as int
    };
    Seq::new(
        n as nat,
        |k: int| BlockEvent { index: (first + k) as usize, offset: (s[first + k].frame - start) as u32 },
    )
}

/// Picks the scheduled events a rolling segment delivers, with their offsets into it.
pub fn block_events(events: &Vec<ScheduledEvent>, start: u64, frames: usize, room: usize) -> (picked:
    Vec<BlockEvent>)
    requires
        sorted_by_frame(events@),
        start + frames <= u64::MAX,
    ensures
        picked@ == segment_events(events@, start, frames, room),
{
    let end: u64 = start + frames as u64;
    let first = partition_before(events, start);
    let ghost stop = count_before(events@, end) as int;
    proof {
        lemma_count_before_splits(events@, start);
        lemma_count_before_splits(events@, end);
        lemma_count_before_monotonic(events@, start, end);
    }
    let mut picked: Vec<BlockEvent> = Vec::new();
    let mut i = first;
    while i < events.len()
        invariant
            first == count_before(events@, start),
            stop == count_before(events@, end),
            first <= i <= stop || (i == first && first >= stop),
            first <= stop <= events@.len(),
            i <= events@.len(),
            end == start + frames,
            forall|j: int| first <= j < stop ==> start <= #[trigger] events@[j].frame < end,
            forall|j: int| stop <= j < events@.len() ==> #[trigger] events@[j].frame >= end,
            picked@.len() == i - first,
            picked@.len() <= room,
            forall|k: int|
                0 <= k < picked@.len() ==> #[trigger] picked@[k] == (BlockEvent {
                    index: (first + k) as usize,
                    offset: (events@[first + k].frame - start) as u32,
                }),
        ensures
            i == stop || picked@.len() == room,
            picked@.len() == i - first,
            forall|k: int|
                0 <= k < picked@.len() ==> #[trigger] picked@[k] == (BlockEvent {
                    index: (first + k) as usize,
                    offset: (events@[first + k].frame - start) as u32,
                }),
        decreases events.len() - i,
    {
        if events[i].frame >= end {
            break;
        }
        if picked.len() == room {
            break;
        }
        let offset = (events[i].frame - start) as u32;
        picked.push(BlockEvent { index: i, offset });
        i = i + 1;
    }
    proof {
        let expected = segment_events(events@, start, frames, room);
        assert(picked@ =~= expected);
    }
    picked
}

/// Where a block is cut does not change which events are delivered, nor where: the events two
/// touching segments deliver are those the one segment covering both delivers, each once, the
/// second segment's offsets counted from its own start. An event on the boundary belongs to
/// the later segment alone.
pub proof fn lemma_events_split(s: Seq<ScheduledEvent>, start: u64, a: usize, b: usize, room: usize)
    requires
        sorted_by_frame(s),
        start + a + b <= u64::MAX,
        a + b <= u32::MAX,
        count_before(s, (start + a + b) as u64) - count_before(s, start) <= room,
    ensures
        ({
            let first = segment_events(s, start, a, room);
            let second = segment_events(s, (start + a) as u64, b, room);
            let whole = segment_events(s, start, (a + b) as usize, room);
            &&& whole.len() == first.len() + second.len()
            &&& forall|k: int| 0 <= k < first.len() ==> whole[k] == first[k]
            &&& forall|k: int|
                0 <= k < second.len() ==> whole[first.len() + k].index == second[k].index
                    && whole[first.len() + k].offset == second[k].offset + a
        }),
{
    let mid_at = (start + a) as u64;
    let end_at = (start + a + b) as u64;
    lemma_count_before_monotonic(s, start, mid_at);
    lemma_count_before_monotonic(s, mid_at, end_at);
    lemma_count_before_splits(s, start);
    lemma_count_before_splits(s, mid_at);
    lemma_count_before_splits(s, end_at);
    let lo = count_before(s, start) as int;
    let mid = count_before(s, mid_at) as int;
    let hi = count_before(s, end_at) as int;
    let first = segment_events(s, start, a, room);
    let second = segment_events(s, mid_at, b, room);
    let whole = segment_events(s, start, (a + b) as usize, room);
    assert forall|k: int| 0 <= k < first.len() implies whole[k] == first[k] by {
        assert(lo + k < mid);
    }
    assert forall|k: int| 0 <= k < second.len() implies whole[first.len() + k].index
        == second[k].index && whole[first.len() + k].offset == second[k].offset + a by {
        let j = mid + k;
        assert(j < hi);
        assert(s[j].frame >= mid_at);
        assert(s[j].frame < end_at);
        assert(s[j].frame - start < a + b);
        assert(s[j].frame - mid_at < b);
    }
}

/// What the chase table says of one pitch after a run of events: how many of its notes are
/// sounding, counted as the table counts them (at most 255, never below none).
pub open spec fn chase_count(s: Seq<ScheduledEvent>, pitch: int) -> nat
    decreases s.len(),
{
    if s.len() == 0 {
        0
    } else {
        let count = chase_count(s.drop_last(), pitch);
        match s.last().kind {
            NoteKind::NoteOn { pitch: struck } => if struck == pitch {
                if count < 255 {
                    count + 1
                } else {
                    255
                }
            } else {
                count
            },
            NoteKind::NoteOff { pitch: released } => if released == pitch {
                if count > 0 {
                    (count - 1) as nat
                } else {
                    0
                }
            } else {
                count
            },
            NoteKind::AllNotesOff | NoteKind::AllSoundOff => 0,
            NoteKind::PitchBend | NoteKind::Modulation => count,
        }
    }
}

/// Index of the last strike of `pitch` in `s`, or -1 when it was never struck.
pub open spec fn last_strike(s: Seq<ScheduledEvent>, pitch: int) -> int
    decreases s.len(),
{
    if s.len() == 0 {
        -1
    } else if s.last().kind == (NoteKind::NoteOn { pitch: pitch as u8 }) && 0 <= pitch < 256 {
        s.len() - 1
    } else {
        last_strike(s.drop_last(), pitch)
    }
}

/// A pitch that is sounding has been struck: the chase always has a velocity to reuse.
pub proof fn lemma_sounding_was_struck(s: Seq<ScheduledEvent>, pitch: int)
    requires
        0 <= pitch < 256,
        chase_count(s, pitch) > 0,
    ensures
        0 <= last_strike(s, pitch) < s.len(),
        s[last_strike(s, pitch)].kind == (NoteKind::NoteOn { pitch: pitch as u8 }),
    decreases s.len(),
{
    if !(s.last().kind == (NoteKind::NoteOn { pitch: pitch as u8 })) {
        lemma_sounding_was_struck(s.drop_last(), pitch);
    }
}

/// The pitches a chase re-strikes, lowest first, each as many times as it has notes sounding,
/// over the first `p` pitches.
pub open spec fn sounding_pitches(s: Seq<ScheduledEvent>, p: nat) -> Seq<u8>
    decreases p,
{
    if p == 0 {
        Seq::empty()
    } else {
        sounding_pitches(s, (p - 1) as nat) + Seq::new(
            chase_count(s, p - 1),
            |k: int| (p - 1) as u8,
        )
    }
}

/// What a chase issues.
#[derive(Copy, Clone, Debug, PartialEq, Eq)]
pub enum Retrigger {
    /// Releases whatever the old position left sounding.
    ReleaseAll,
    /// Strikes `pitch` again, at the velocity of the scheduled strike at index `source`.
    Strike { pitch: u8, source: usize },
}

/// The strike re-issuing `pitch`, with the velocity its last strike in `s` had.
pub open spec fn strike_of(s: Seq<ScheduledEvent>, pitch: u8) -> Retrigger {
    Retrigger::Strike { pitch, source: last_strike(s, pitch as int) as usize }
}

/// What a chase to `position` issues into an event buffer of `room` places: a release of
/// everything, then one strike per note sounding at `position`, lowest pitch first, for as many
/// as the buffer holds.
pub open spec fn chase_plan(s: Seq<ScheduledEvent>, position: u64, room: usize) -> Seq<Retrigger> {
    let before = s.take(count_before(s, position) as int);
    let pitches = sounding_pitches(before, PITCH_COUNT as nat);
    let n = if pitches.len() < room - 1 {
        pitches.len() as int
    } else {
        room - 1
    };
    seq![Retrigger::ReleaseAll] + pitches.take(n).map_values(|pitch: u8| strike_of(before, pitch))
}

/// Fewer pitches sound over a shorter range of pitches, and they come first.
pub proof fn lemma_sounding_prefix(s: Seq<ScheduledEvent>, p: nat, q: nat)
    requires
        p <= q,
    ensures
        sounding_pitches(s, p).len() <= sounding_pitches(s, q).len(),
        sounding_pitches(s, q).take(sounding_pitches(s, p).len() as int) == sounding_pitches(s, p),
    decreases q,
{
    if p < q {
        lemma_sounding_prefix(s, p, (q - 1) as nat);
        let short = sounding_pitches(s, p);
        let mid = sounding_pitches(s, (q - 1) as nat);
        assert(sounding_pitches(s, q).take(mid.len() as int) =~= mid);
        assert(sounding_pitches(s, q).take(short.len() as int) =~= mid.take(short.len() as int));
    } else {
        assert(sounding_pitches(s, q).take(sounding_pitches(s, q).len() as int) =~= sounding_pitches(s, q));
    }
}

/// Works out which notes are sounding at `position` and issues them again.
///
/// Without this, starting playback (or looping, or exporting a range) inside a held note would
/// be silent until the next note began. Two overlapping notes on one pitch come back as two
/// strikes, or the first of the two releases that follow would silence the pair.
pub fn chase_notes(events: &Vec<ScheduledEvent>, position: u64, room: usize) -> (issued: Vec<
    Retrigger,
>)
    requires
        sorted_by_frame(events@),
        room >= 1,
    ensures
        issued@ == chase_plan(events@, position, room),
{
    let upto = partition_before(events, position);
    let ghost before = events@.take(upto as int);
    proof {
        lemma_count_before_splits(events@, position);
    }
    let mut counts: Vec<u8> = Vec::new();
    let mut strikes: Vec<usize> = Vec::new();
    let mut p: usize = 0;
    while p < PITCH_COUNT
        invariant
            p <= PITCH_COUNT,
            counts@.len() == p,
            strikes@.len() == p,
            forall|k: int| 0 <= k < p ==> #[trigger] counts@[k] == 0,
        decreases PITCH_COUNT - p,
    {
        counts.push(0);
        strikes.push(0);
        p = p + 1;
    }
    let mut i: usize = 0;
    while i < upto
        invariant
            i <= upto <= events@.len(),
            counts@.len() == PITCH_COUNT,
            strikes@.len() == PITCH_COUNT,
            forall|k: int|
                0 <= k < PITCH_COUNT ==> #[trigger] counts@[k] == chase_count(
                    events@.take(i as int),
                    k,
                ),
            forall|k: int|
                0 <= k < PITCH_COUNT && last_strike(events@.take(i as int), k) >= 0
                    ==> #[trigger] strikes@[k] == last_strike(events@.take(i as int), k),
        decreases upto - i,
    {
        let ghost prior = events@.take(i as int);
        let ghost next = events@.take(i + 1);
        proof {
            assert(next.drop_last() =~= prior);
            assert(next.last() == events@[i as int]);
        }
        match events[i].kind {
            NoteKind::NoteOn { pitch } => {
                if (pitch as usize) < PITCH_COUNT {
                    let p = pitch as usize;
                    if counts[p] < 255 {
                        counts.set(p, counts[p] + 1);
                    }
                    strikes.set(p, i);
                }
            },
            NoteKind::NoteOff { pitch } => {
                if (pitch as usize) < PITCH_COUNT {
                    let p = pitch as usize;
                    if counts[p] > 0 {
                        counts.set(p, counts[p] - 1);
                    }
                }
            },
            NoteKind::AllNotesOff | NoteKind::AllSoundOff => {
                let mut k: usize = 0;
                while k < PITCH_COUNT
                    invariant
                        k <= PITCH_COUNT,
                        counts@.len() == PITCH_COUNT,
                        forall|j: int| 0 <= j < k ==> #[trigger] counts@[j] == 0,
                        forall|j: int|
                            k <= j < PITCH_COUNT ==> #[trigger] counts@[j] == chase_count(
                                prior,
                                j,
                            ),
                    decreases PITCH_COUNT - k,
                {
                    counts.set(k, 0);
                    k = k + 1;
                }
            },
            NoteKind::PitchBend | NoteKind::Modulation => {},
        }
        i = i + 1;
    }
    let mut issued: Vec<Retrigger> = Vec::new();
    issued.push(Retrigger::ReleaseAll);
    let ghost full = sounding_pitches(before, PITCH_COUNT as nat);
    let mut p: usize = 0;
    while p < PITCH_COUNT
        invariant
            p <= PITCH_COUNT,
            room >= 1,
            upto == count_before(events@, position),
            upto <= events@.len(),
            before == events@.take(upto as int),
            full == sounding_pitches(before, PITCH_COUNT as nat),
            counts@.len() == PITCH_COUNT,
            strikes@.len() == PITCH_COUNT,
            forall|k: int| 0 <= k < PITCH_COUNT ==> #[trigger] counts@[k] == chase_count(before, k),
            forall|k: int|
                0 <= k < PITCH_COUNT && last_strike(before, k) >= 0 ==> #[trigger] strikes@[k]
                    == last_strike(before, k),
            issued@.len() <= room,
            issued@ == seq![Retrigger::ReleaseAll] + sounding_pitches(before, p as nat).map_values(
                |pitch: u8| strike_of(before, pitch),
            ),
        decreases PITCH_COUNT - p,
    {
        let count = counts[p];
        let mut c: u8 = 0;
        while c < count
            invariant
                p < PITCH_COUNT,
                c <= count,
                upto == count_before(events@, position),
                before == events@.take(upto as int),
                full == sounding_pitches(before, PITCH_COUNT as nat),
                count == chase_count(before, p as int),
                room >= 1,
                issued@.len() <= room,
                strikes@.len() == PITCH_COUNT,
                last_strike(before, p as int) >= 0 ==> strikes@[p as int] == last_strike(before, p as int),
                issued@ == seq![Retrigger::ReleaseAll] + (sounding_pitches(before, p as nat)
                    + Seq::new(c as nat, |k: int| p as u8)).map_values(
                    |pitch: u8| strike_of(before, pitch),
                ),
            decreases count - c,
        {
            if issued.len() == room {
                proof {
                    let had = sounding_pitches(before, p as nat) + Seq::new(c as nat, |k: int| p as u8);
                    let upper = sounding_pitches(before, (p + 1) as nat);
                    lemma_sounding_prefix(before, (p + 1) as nat, PITCH_COUNT as nat);
                    let run = sounding_pitches(before, p as nat) + Seq::new(count as nat, |k: int| p as u8);
                    assert(upper =~= run);
                    assert(run.take(had.len() as int) =~= had);
                    assert(upper.take(had.len() as int) =~= had);
                    assert(full.take(upper.len() as int) == upper);
                    assert forall|k: int| 0 <= k < had.len() implies #[trigger] full[k] == had[k] by {
                        assert(full.take(upper.len() as int)[k] == upper[k]);
                        assert(upper.take(had.len() as int)[k] == had[k]);
                    }
                    assert(full.take(had.len() as int) =~= had);
                    assert(had.len() == room - 1);
                }
                return issued;
            }
            proof {
                lemma_sounding_was_struck(before, p as int);
            }
            issued.push(Retrigger::Strike { pitch: p as u8, source: strikes[p] });
            proof {
                let grown = sounding_pitches(before, p as nat) + Seq::new((c + 1) as nat, |k: int| p as u8);
                let had = sounding_pitches(before, p as nat) + Seq::new(c as nat, |k: int| p as u8);
                assert(grown =~= had.push(p as u8));
                assert(issued@ =~= seq![Retrigger::ReleaseAll] + grown.map_values(|pitch: u8| strike_of(before, pitch)));
            }
            c = c + 1;
        }
        proof {
            let had = sounding_pitches(before, p as nat) + Seq::new(count as nat, |k: int| p as u8);
            assert(had =~= sounding_pitches(before, (p + 1) as nat));
        }
        p = p + 1;
    }
    proof {
        assert(full.take(full.len() as int) =~= full);
    }
    issued
}

/// Whether an instrument track chases its notes at the start of a segment, and where it expects
/// the next segment to start.
///
/// A segment that does not start where the last one ended means the playhead jumped, so the
/// notes meant to be sounding there are issued again; resuming from a stop is a jump too.
pub fn continuation(playing: bool, continued_from: Option<u64>, start: u64, frames: usize) -> (answer: (
    bool,
    Option<u64>,
))
    requires
        playing ==> start + frames <= u64::MAX,
    ensures
        answer.0 == (playing && continued_from != Some(start)),
        answer.1 == if playing {
            Some((start + frames) as u64)
        } else {
            None::<u64>
        },
{
    if playing {
        let chase = match continued_from {
            Some(previous) => previous != start,
            None => true,
        };
        (chase, Some(start + frames as u64))
    } else {
        (false, None)
    }
}

/// The part of an audio clip that lands in a segment.
#[derive(Copy, Clone, Debug, PartialEq, Eq)]
pub struct ClipSpan {
    /// First frame of the segment the clip writes to.
    pub destination_start: usize,
    /// First frame of the clip's audio that is read.
    pub source_start: usize,
    /// Frames mixed in.
    pub count: usize,
    /// How far into the clip the first mixed frame is, which is what its fades are read at.
    pub into_clip: u64,
}

/// Where a clip starting at `start_frame` for `length` frames, reading its audio from
/// `source_offset` of a source `source_frames` long, overlaps the segment of `frames` frames at
/// `position`; nothing when they do not meet or the source has run out.
pub open spec fn clip_overlap(
    start_frame: u64,
    length: u64,
    source_offset: u64,
    source_frames: usize,
    position: u64,
    frames: usize,
) -> Option<ClipSpan> {
    let block_end = position + frames;
    let clip_end = if start_frame + length > u64::MAX {
        u64::MAX as int
    } else {
        start_frame + length
    };
    let from = if position > start_frame {
        position as int
    } else {
        start_frame as int
    };
    let to = if block_end < clip_end {
        block_end
    } else {
        clip_end
    };
    let into_clip = from - start_frame;
    let source_start = (source_offset + into_clip) as usize;
    let available = if source_frames > source_start {
        source_frames - source_start
    } else {
        0
    };
    let count = if to - from < available {
        to - from
    } else {
        available
    };
    if clip_end <= position || start_frame >= block_end || count == 0 {
        None
    } else {
        Some(
            ClipSpan {
                destination_start: (from - position) as usize,
                source_start,
                count: count as usize,
                into_clip: into_clip as u64,
            },
        )
    }
}

/// The later of the clip's start and the segment's start: where a clip can first sound in it.
pub open spec fn overlap_start(start_frame: u64, position: u64) -> int {
    if position > start_frame {
        position as int
    } else {
        start_frame as int
    }
}

/// A clip lands in a segment only inside both: it starts no earlier than the clip or the segment,
/// ends no later than either (an empty clip or segment has nothing to give), reads the clip's audio from as far in as it has played, and never
/// past the source's end. What it mixes is as much as it can: it stops only at the clip's end,
/// the segment's end or the source's end. And it is absent exactly when the clip and the segment
/// do not meet or the source has nothing left at that point.
pub proof fn lemma_clip_span_inside_clip_segment_and_source(
    start_frame: u64,
    length: u64,
    source_offset: u64,
    source_frames: usize,
    position: u64,
    frames: usize,
)
    requires
        position + frames <= u64::MAX,
        source_offset + (overlap_start(start_frame, position) - start_frame) <= usize::MAX,
    ensures
        ({
            let from = overlap_start(start_frame, position);
            let read_from = source_offset + (from - start_frame);
            clip_overlap(start_frame, length, source_offset, source_frames, position, frames) is None
                <==> (start_frame + length <= position || start_frame >= position + frames
                || length == 0 || frames == 0 || read_from >= source_frames)
        }),
        ({
            let from = overlap_start(start_frame, position);
            let read_from = source_offset + (from - start_frame);
            match clip_overlap(start_frame, length, source_offset, source_frames, position, frames) {
                Some(s) => {
                    let at = position + s.destination_start;
                    &&& at == from
                    &&& s.count >= 1
                    &&& at + s.count <= start_frame + length
                    &&& at + s.count <= position + frames
                    &&& s.into_clip == at - start_frame
                    &&& s.source_start == read_from
                    &&& s.source_start + s.count <= source_frames
                    &&& (at + s.count == start_frame + length || at + s.count == position + frames
                        || s.source_start + s.count == source_frames)
                },
                None => start_frame + length <= position || start_frame >= position + frames
                    || length == 0 || frames == 0 || read_from >= source_frames,
            }
        }),
{
}

/// Works out which frames of a clip a segment mixes in, and where.
pub fn clip_span(
    start_frame: u64,
    length: u64,
    source_offset: u64,
    source_frames: usize,
    position: u64,
    frames: usize,
) -> (span: Option<ClipSpan>)
    requires
        position + frames <= u64::MAX,
        position > start_frame ==> source_offset + (position - start_frame) <= u64::MAX,
    ensures
        span == clip_overlap(start_frame, length, source_offset, source_frames, position, frames),
        span matches Some(s) ==> s.count >= 1 && s.destination_start + s.count <= frames
            && s.source_start + s.count <= source_frames,
        span matches Some(s) ==> position + s.destination_start >= start_frame
            && position + s.destination_start + s.count <= start_frame + length,
{
    let block_end: u64 = position + frames as u64;
    let clip_end: u64 = start_frame.saturating_add(length);
    if clip_end <= position || start_frame >= block_end {
        return None;
    }
    let from = if position > start_frame {
        position
    } else {
        start_frame
    };
    let to = if block_end < clip_end {
        block_end
    } else {
        clip_end
    };
    let into_clip = from - start_frame;
    let source_start = (source_offset + into_clip) as usize;
    let available = source_frames.saturating_sub(source_start);
    let within = (to - from) as usize;
    let count = if within < available {
        within
    } else {
        available
    };
    if count == 0 {
        return None;
    }
    Some(
        ClipSpan {
            destination_start: (from - position) as usize,
            source_start,
            count,
            into_clip,
        },
    )
}

} // verus!
