//! Note events pinned to absolute timeline frames, and the bounds read off them.
//!
//! The events are what an instrument is driven by. Their order on one frame matters — a release
//! goes before a strike so a repeated note retriggers — and the two bounds at the end size the
//! scratch that keeps the audio thread away from the allocator.
use vstd::prelude::*;

verus! {

/// What happens at a scheduled position, as far as ordering and counting notes is concerned.
#[derive(Copy, Clone, Debug, PartialEq, Eq)]
pub enum NoteKind {
    /// A note starts on `pitch`.
    NoteOn { pitch: u8 },
    /// A note on `pitch` is released.
    NoteOff { pitch: u8 },
    /// Every note is released.
    AllNotesOff,
    /// Every voice is silenced at once.
    AllSoundOff,
    /// The instrument is bent.
    PitchBend,
    /// The modulation wheel moves.
    Modulation,
}

/// A note event pinned to an absolute position on the timeline.
#[derive(Copy, Clone, Debug, PartialEq, Eq)]
pub struct ScheduledEvent {
    /// Absolute timeline position, in frames.
    pub frame: u64,
    /// What happens at that position.
    pub kind: NoteKind,
}

/// Rank used to break ties between events landing on the same frame: releases first, then
/// controller moves, then strikes.
pub open spec fn rank_of(kind: NoteKind) -> u8 {
    match kind {
        NoteKind::NoteOff { .. } | NoteKind::AllNotesOff | NoteKind::AllSoundOff => 0,
        NoteKind::PitchBend | NoteKind::Modulation => 1,
        NoteKind::NoteOn { .. } => 2,
    }
}

/// Rank used to break ties between events landing on the same frame.
///
/// Releases go first so that a note repeated at the same pitch retriggers instead of the new
/// note being cut short by the old note's release; controller state goes before the strike so a
/// note landing on the same frame as the curve that shapes it is already being shaped.
pub fn event_rank(kind: &NoteKind) -> (rank: u8)
    ensures
        rank == rank_of(*kind),
{
    match kind {
        NoteKind::NoteOff { .. } | NoteKind::AllNotesOff | NoteKind::AllSoundOff => 0,
        NoteKind::PitchBend | NoteKind::Modulation => 1,
        NoteKind::NoteOn { .. } => 2,
    }
}

/// The sort key of an event: its frame, then its rank, as one number.
pub open spec fn sort_key(event: ScheduledEvent) -> int {
    event.frame * 4 + rank_of(event.kind)
}

/// `s` is in order of [`sort_key`].
pub open spec fn sorted_by_key(s: Seq<ScheduledEvent>) -> bool {
    forall|i: int, j: int| 0 <= i < j < s.len() ==> sort_key(s[i]) <= sort_key(s[j])
}

/// The events of `s` whose key is `key`, in the order `s` holds them.
pub open spec fn with_key(s: Seq<ScheduledEvent>, key: int) -> Seq<ScheduledEvent>
    decreases s.len(),
{
    if s.len() == 0 {
        Seq::empty()
    } else {
        let rest = with_key(s.drop_last(), key);
        if sort_key(s.last()) == key {
            rest.push(s.last())
        } else {
            rest
        }
    }
}

/// Picking out one key commutes with joining two sequences.
pub proof fn lemma_with_key_add(a: Seq<ScheduledEvent>, b: Seq<ScheduledEvent>, key: int)
    ensures
        with_key(a + b, key) == with_key(a, key) + with_key(b, key),
    decreases b.len(),
{
    if b.len() == 0 {
        assert(a + b =~= a);
        assert(with_key(a, key) + with_key(b, key) =~= with_key(a, key));
    } else {
        assert((a + b).drop_last() =~= a + b.drop_last());
        lemma_with_key_add(a, b.drop_last(), key);
        if sort_key(b.last()) == key {
            assert(with_key(a, key) + with_key(b.drop_last(), key).push(b.last()) =~= (with_key(
                a,
                key,
            ) + with_key(b.drop_last(), key)).push(b.last()));
        }
    }
}

/// A sequence whose keys all differ from `key` has nothing under it.
pub proof fn lemma_with_key_none(s: Seq<ScheduledEvent>, key: int)
    requires
        forall|i: int| 0 <= i < s.len() ==> sort_key(#[trigger] s[i]) != key,
    ensures
        with_key(s, key) == Seq::<ScheduledEvent>::empty(),
    decreases s.len(),
{
    if s.len() > 0 {
        lemma_with_key_none(s.drop_last(), key);
    }
}

/// One event alone under its own key.
pub proof fn lemma_with_key_single(e: ScheduledEvent, key: int)
    ensures
        with_key(seq![e], key) == if sort_key(e) == key {
            seq![e]
        } else {
            Seq::<ScheduledEvent>::empty()
        },
{
    reveal_with_fuel(with_key, 2);
    assert(seq![e].drop_last() =~= Seq::<ScheduledEvent>::empty());
    assert(Seq::<ScheduledEvent>::empty().push(e) =~= seq![e]);
}

/// Whether `a` sorts strictly after `b`.
fn sorts_after(a: &ScheduledEvent, b: &ScheduledEvent) -> (after: bool)
    ensures
        after == (sort_key(*a) > sort_key(*b)),
{
    a.frame > b.frame || (a.frame == b.frame && event_rank(&a.kind) > event_rank(&b.kind))
}

/// Sorts events by frame, breaking ties with [`event_rank`], keeping events that tie on both in
/// the order they arrived.
///
/// The result is in key order, and for every key it holds exactly the events the input held
/// under that key, in the input's order — which is what a stable sort is.
pub fn sort_events(events: &mut Vec<ScheduledEvent>)
    ensures
        sorted_by_key(final(events)@),
        final(events)@.len() == old(events)@.len(),
        forall|key: int| #[trigger] with_key(final(events)@, key) == with_key(old(events)@, key),
{
    let mut result: Vec<ScheduledEvent> = Vec::new();
    let mut i: usize = 0;
    while i < events.len()
        invariant
            i <= events.len(),
            events@ == old(events)@,
            result@.len() == i,
            sorted_by_key(result@),
            forall|key: int|
                #[trigger] with_key(result@, key) == with_key(events@.subrange(0, i as int), key),
        decreases events.len() - i,
    {
        let e = events[i];
        // The first place whose event sorts after `e`: everything before it sorts no later.
        let mut p: usize = result.len();
        while p > 0 && sorts_after(&result[p - 1], &e)
            invariant
                p <= result@.len(),
                forall|k: int| p <= k < result@.len() ==> sort_key(#[trigger] result@[k]) > sort_key(e),
            decreases p,
        {
            p = p - 1;
        }
        let ghost before = result@;
        proof {
            assert forall|k: int| 0 <= k < p implies sort_key(#[trigger] before[k]) <= sort_key(e) by {
                if p > 0 {
                    assert(sort_key(before[p - 1]) <= sort_key(e));
                }
            }
        }
        result.insert(p, e);
        proof {
            let front = before.subrange(0, p as int);
            let back = before.subrange(p as int, before.len() as int);
            assert(before =~= front + back);
            assert(result@ =~= front + seq![e] + back);
            assert(events@.subrange(0, i + 1) =~= events@.subrange(0, i as int) + seq![e]);
            assert forall|key: int| #[trigger] with_key(result@, key) == with_key(
                events@.subrange(0, i + 1),
                key,
            ) by {
                lemma_with_key_add(front + seq![e], back, key);
                lemma_with_key_add(front, seq![e], key);
                lemma_with_key_add(front, back, key);
                lemma_with_key_add(events@.subrange(0, i as int), seq![e], key);
                lemma_with_key_single(e, key);
                if key == sort_key(e) {
                    assert forall|k: int| 0 <= k < back.len() implies sort_key(#[trigger] back[k]) != key by {
                        assert(back[k] == before[p + k]);
                    }
                    lemma_with_key_none(back, key);
                    assert(with_key(front, key) + with_key(back, key) =~= with_key(front, key));
                    assert(with_key(front, key) + seq![e] + Seq::<ScheduledEvent>::empty()
                        =~= with_key(front, key) + seq![e]);
                } else {
                    assert(with_key(front, key) + Seq::<ScheduledEvent>::empty() =~= with_key(
                        front,
                        key,
                    ));
                    assert(with_key(events@.subrange(0, i as int), key) + Seq::<
                        ScheduledEvent,
                    >::empty() =~= with_key(events@.subrange(0, i as int), key));
                }
            }
            assert forall|a: int, b: int| 0 <= a < b < result@.len() implies sort_key(result@[a])
                <= sort_key(result@[b]) by {
                if b < p {
                    assert(result@[a] == before[a] && result@[b] == before[b]);
                } else if b == p {
                    assert(result@[a] == before[a]);
                } else if a < p {
                    assert(result@[a] == before[a] && result@[b] == before[b - 1]);
                } else if a == p {
                    assert(result@[b] == before[b - 1]);
                } else {
                    assert(result@[a] == before[a - 1] && result@[b] == before[b - 1]);
                }
            }
        }
        i = i + 1;
    }
    assert(events@.subrange(0, events.len() as int) =~= events@);
    *events = result;
}


/// Notes sounding after walking `s`, and the most that sounded at once on the way: a strike adds
/// one, a release takes one away (never below none), and an all-off clears them.
pub open spec fn sounding_walk(s: Seq<ScheduledEvent>) -> (nat, nat)
    decreases s.len(),
{
    if s.len() == 0 {
        (0, 0)
    } else {
        let (sounding, most) = sounding_walk(s.drop_last());
        match s.last().kind {
            NoteKind::NoteOn { .. } => (
                sounding + 1,
                if most >= sounding + 1 {
                    most
                } else {
                    sounding + 1
                },
            ),
            NoteKind::NoteOff { .. } => (
                if sounding > 0 {
                    (sounding - 1) as nat
                } else {
                    0
                },
                most,
            ),
            NoteKind::AllNotesOff | NoteKind::AllSoundOff => (0, most),
            NoteKind::PitchBend | NoteKind::Modulation => (sounding, most),
        }
    }
}

/// Never more notes sound than events have been walked.
pub proof fn lemma_sounding_bound(s: Seq<ScheduledEvent>)
    ensures
        sounding_walk(s).0 <= s.len(),
        sounding_walk(s).1 <= s.len(),
    decreases s.len(),
{
    if s.len() > 0 {
        lemma_sounding_bound(s.drop_last());
    }
}

/// How many strikes `s` holds.
pub open spec fn strikes(s: Seq<ScheduledEvent>) -> nat
    decreases s.len(),
{
    if s.len() == 0 {
        0
    } else {
        strikes(s.drop_last()) + if s.last().kind is NoteOn {
            1nat
        } else {
            0nat
        }
    }
}

/// Whether an event silences every note.
pub open spec fn is_all_off(kind: NoteKind) -> bool {
    kind is AllNotesOff || kind is AllSoundOff
}

/// Whether an event lets a note go or silences every note.
pub open spec fn is_release(kind: NoteKind) -> bool {
    kind is NoteOff || is_all_off(kind)
}

/// Never more notes sound, nor ever sounded at once, than there were strikes.
pub proof fn lemma_sounding_at_most_strikes(s: Seq<ScheduledEvent>)
    ensures
        sounding_walk(s).0 <= sounding_walk(s).1 <= strikes(s),
    decreases s.len(),
{
    if s.len() > 0 {
        lemma_sounding_at_most_strikes(s.drop_last());
    }
}

/// With nothing ever let go, every strike is still sounding at the end, and that is the most.
pub proof fn lemma_unreleased_strikes_all_sound(s: Seq<ScheduledEvent>)
    requires
        forall|i: int| 0 <= i < s.len() ==> !is_release(#[trigger] s[i].kind),
    ensures
        sounding_walk(s).0 == strikes(s),
        sounding_walk(s).1 == strikes(s),
    decreases s.len(),
{
    if s.len() > 0 {
        assert forall|i: int| 0 <= i < s.drop_last().len() implies !is_release(
            #[trigger] s.drop_last()[i].kind,
        ) by {
            assert(s.drop_last()[i] == s[i]);
        }
        lemma_unreleased_strikes_all_sound(s.drop_last());
        assert(!is_release(s[s.len() - 1].kind));
    }
}

/// An all-off wipes the slate: after it, notes are counted as if the schedule began there, and
/// the most sounding at once over the whole schedule is the greater of the two sides' peaks.
pub proof fn lemma_all_off_starts_afresh(
    before: Seq<ScheduledEvent>,
    off: ScheduledEvent,
    after: Seq<ScheduledEvent>,
)
    requires
        is_all_off(off.kind),
    ensures
        sounding_walk(before.push(off) + after).0 == sounding_walk(after).0,
        sounding_walk(before.push(off) + after).1 == if sounding_walk(before).1 >= sounding_walk(
            after,
        ).1 {
            sounding_walk(before).1
        } else {
            sounding_walk(after).1
        },
    decreases after.len(),
{
    let whole = before.push(off) + after;
    if after.len() == 0 {
        assert(whole =~= before.push(off));
        assert(before.push(off).drop_last() =~= before);
    } else {
        let shorter = after.drop_last();
        assert(whole.drop_last() =~= before.push(off) + shorter);
        assert(whole.last() == after.last());
        lemma_all_off_starts_afresh(before, off, shorter);
    }
}

/// A note struck and let go straight away leaves the count as it was: everything after sounds
/// as if the pair were not there, and the only trace is the peak it reached while it sounded.
pub proof fn lemma_struck_and_released_leaves_count(
    before: Seq<ScheduledEvent>,
    on: ScheduledEvent,
    off: ScheduledEvent,
    after: Seq<ScheduledEvent>,
)
    requires
        on.kind is NoteOn,
        off.kind is NoteOff,
    ensures
        sounding_walk(before.push(on).push(off) + after).0 == sounding_walk(before + after).0,
        sounding_walk(before.push(on).push(off) + after).1 == if sounding_walk(before + after).1
            >= sounding_walk(before).0 + 1 {
            sounding_walk(before + after).1
        } else {
            sounding_walk(before).0 + 1
        },
    decreases after.len(),
{
    let whole = before.push(on).push(off) + after;
    let (sb, mb) = sounding_walk(before);
    let struck = before.push(on);
    assert(struck.drop_last() =~= before);
    assert(sounding_walk(struck) == (
        sb + 1,
        if mb >= sb + 1 {
            mb
        } else {
            sb + 1
        },
    ));
    let pair = struck.push(off);
    assert(pair.drop_last() =~= struck);
    assert(sounding_walk(pair).0 == sb);
    assert(sounding_walk(pair).1 == sounding_walk(struck).1);
    if after.len() == 0 {
        assert(whole =~= pair);
        assert(before + after =~= before);
    } else {
        let shorter = after.drop_last();
        assert(whole.drop_last() =~= before.push(on).push(off) + shorter);
        assert((before + after).drop_last() =~= before + shorter);
        assert(whole.last() == after.last());
        assert((before + after).last() == after.last());
        lemma_struck_and_released_leaves_count(before, on, off, shorter);
    }
}

/// Largest number of notes this track ever has sounding at once.
///
/// That is exactly what the chase after a seek has to be able to re-issue. The events arrive
/// sorted with releases ranked ahead of strikes on the same frame, so a single pass is enough —
/// a note ending exactly where the next begins never counts as two.
pub fn max_sounding_notes(events: &Vec<ScheduledEvent>) -> (most: usize)
    ensures
        most == sounding_walk(events@).1,
        most <= strikes(events@),
        (forall|i: int| 0 <= i < events@.len() ==> !is_release(#[trigger] events@[i].kind))
            ==> most == strikes(events@),
{
    let mut sounding: usize = 0;
    let mut most: usize = 0;
    let mut i: usize = 0;
    while i < events.len()
        invariant
            i <= events.len(),
            (sounding as nat, most as nat) == sounding_walk(events@.subrange(0, i as int)),
        decreases events.len() - i,
    {
        proof {
            assert(events@.subrange(0, i + 1).drop_last() =~= events@.subrange(0, i as int));
            lemma_sounding_bound(events@.subrange(0, i as int));
        }
        match events[i].kind {
            NoteKind::NoteOn { .. } => {
                sounding = sounding + 1;
                if sounding > most {
                    most = sounding;
                }
            },
            NoteKind::NoteOff { .. } => {
                sounding = sounding.saturating_sub(1);
            },
            NoteKind::AllNotesOff | NoteKind::AllSoundOff => {
                sounding = 0;
            },
            NoteKind::PitchBend | NoteKind::Modulation => {},
        }
        i = i + 1;
    }
    assert(events@.subrange(0, events.len() as int) =~= events@);
    proof {
        lemma_sounding_at_most_strikes(events@);
        if forall|i: int| 0 <= i < events@.len() ==> !is_release(#[trigger] events@[i].kind) {
            lemma_unreleased_strikes_all_sound(events@);
        }
    }
    most
}

/// The events are in order of frame.
pub open spec fn sorted_by_frame(s: Seq<ScheduledEvent>) -> bool {
    forall|i: int, j: int| 0 <= i <= j < s.len() ==> s[i].frame <= s[j].frame
}

/// How many of the first `m` events fall less than `window` frames before event `h`.
pub open spec fn count_in_window(s: Seq<ScheduledEvent>, h: int, window: u64, m: nat) -> nat
    decreases m,
{
    if m == 0 {
        0
    } else {
        count_in_window(s, h, window, (m - 1) as nat) + if s[h].frame - s[m - 1].frame
            < window {
            1nat
        } else {
            0nat
        }
    }
}

/// How many events fall inside the window of `window` frames that ends on event `h`.
pub open spec fn window_size(s: Seq<ScheduledEvent>, h: int, window: u64) -> nat {
    count_in_window(s, h, window, (h + 1) as nat)
}

/// The fullest such window among the first `n` events.
pub open spec fn fullest_window(s: Seq<ScheduledEvent>, window: u64, n: nat) -> nat
    decreases n,
{
    if n == 0 {
        0
    } else {
        let rest = fullest_window(s, window, (n - 1) as nat);
        let here = window_size(s, n - 1, window);
        if rest >= here {
            rest
        } else {
            here
        }
    }
}

/// Counting a window whose events are exactly those from `low` to `h`.
pub proof fn lemma_count_range(s: Seq<ScheduledEvent>, h: int, window: u64, low: int, m: nat)
    requires
        0 <= low <= h < s.len(),
        m <= h + 1,
        forall|l: int| 0 <= l < low ==> s[h].frame - s[l].frame >= window,
        forall|l: int| low <= l <= h ==> s[h].frame - s[l].frame < window,
    ensures
        count_in_window(s, h, window, m) == if m <= low {
            0
        } else {
            (m - low) as nat
        },
    decreases m,
{
    if m > 0 {
        lemma_count_range(s, h, window, low, (m - 1) as nat);
    }
}

/// Largest number of events that can fall inside any window of `window` frames.
///
/// The exact bound the per-block event buffer needs: rendering never sees more than one
/// window's worth at a time. The events must be in order of frame and the window at least one
/// frame long.
pub fn max_events_in_window(events: &Vec<ScheduledEvent>, window: u64) -> (best: usize)
    requires
        sorted_by_frame(events@),
        window > 0,
    ensures
        best == fullest_window(events@, window, events@.len()),
        best <= events@.len(),
{
    let mut best: usize = 0;
    let mut low: usize = 0;
    let mut high: usize = 0;
    while high < events.len()
        invariant
            high <= events.len(),
            sorted_by_frame(events@),
            window > 0,
            high == 0 ==> low == 0,
            high > 0 ==> low < high,
            high > 0 ==> forall|l: int|
                0 <= l < low ==> events@[high - 1].frame - (#[trigger] events@[l]).frame >= window,
            best == fullest_window(events@, window, high as nat),
            best <= high,
        decreases events.len() - high,
    {
        let frame = events[high].frame;
        while frame - events[low].frame >= window
            invariant
                low <= high < events.len(),
                frame == events@[high as int].frame,
                sorted_by_frame(events@),
                window > 0,
                forall|l: int|
                    0 <= l < low ==> events@[high as int].frame - (#[trigger] events@[l]).frame
                        >= window,
            decreases high - low,
        {
            low = low + 1;
        }
        proof {
            assert forall|l: int| low <= l <= high implies events@[high as int].frame
                - events@[l].frame < window by {
                assert(events@[low as int].frame <= events@[l].frame);
            }
            lemma_count_range(events@, high as int, window, low as int, (high + 1) as nat);
        }
        let here = high - low + 1;
        if here > best {
            best = here;
        }
        high = high + 1;
    }
    best
}

/// The two events one note is flattened into: its strike at `start`, and its release at `end`,
/// or one frame after the strike if `end` is not later, so the instrument never sees a release
/// before the note has produced a sample.
pub fn schedule_note(pitch: u8, start: u64, end: u64) -> (events: (ScheduledEvent, ScheduledEvent))
    requires
        start < u64::MAX,
    ensures
        events.0 == (ScheduledEvent { frame: start, kind: NoteKind::NoteOn { pitch } }),
        events.1 == (ScheduledEvent {
            frame: if end > start {
                end
            } else {
                (start + 1) as u64
            },
            kind: NoteKind::NoteOff { pitch },
        }),
        events.0.frame < events.1.frame,
{
    let release = if end > start + 1 {
        end
    } else {
        start + 1
    };
    (
        ScheduledEvent { frame: start, kind: NoteKind::NoteOn { pitch } },
        ScheduledEvent { frame: release, kind: NoteKind::NoteOff { pitch } },
    )
}

/// Where an audio clip's audio starts and how long it plays once its trim is held to the
/// `available` frames of its source: the offset no further than the end, the length no longer
/// than what is left after it. Nothing for a muted clip or one left with nothing to play.
pub fn trim_clip(muted: bool, offset: u64, length: u64, available: u64) -> (window: Option<(u64, u64)>)
    ensures
        window == if muted {
            None::<(u64, u64)>
        } else {
            let start = if offset < available {
                offset
            } else {
                available
            };
            let rest = available - start;
            let kept = if length < rest {
                length as int
            } else {
                rest
            };
            if kept == 0 {
                None::<(u64, u64)>
            } else {
                Some((start, kept as u64))
            }
        },
{
    if muted {
        return None;
    }
    let start = if offset < available {
        offset
    } else {
        available
    };
    let rest = available - start;
    let kept = if length < rest {
        length
    } else {
        rest
    };
    if kept == 0 {
        None
    } else {
        Some((start, kept))
    }
}

} // verus!
