//! The click: where the beats of a count-in fall, and which of them are accented.
//!
//! A count-in does not come off the timeline at all. The playhead is held still for its length,
//! so the beats are `beat_frames` apart from the moment the count began; the first lands on the
//! first frame of the count and the last one beat before the transport rolls.
use vstd::prelude::*;

verus! {

/// How many clicks one block is allowed to hold.
pub const MAX_CLICKS: usize = 8;

/// One click a block has to sound.
#[derive(Copy, Clone, Debug, PartialEq, Eq)]
pub struct Click {
    /// Where it lands, in frames from the start of the block.
    pub frame: usize,
    /// Whether it falls on a bar line rather than on a beat inside one.
    pub accent: bool,
}

/// A count-in: a fixed number of beats of a fixed length, and how much of it is still to come.
#[derive(Copy, Clone, Debug, PartialEq, Eq)]
pub struct CountIn {
    /// Beats the count lasts.
    pub beats: u32,
    /// Length of one beat, in frames.
    pub beat_frames: u64,
    /// Beats in a bar, which decides which beats are accented.
    pub per_bar: u32,
    /// Frames of the count still to be played.
    pub remaining_frames: u64,
}

/// `beats` beats of `beat_frames`, saturating at `u64::MAX`.
pub open spec fn count_total(beats: u32, beat_frames: u64) -> u64 {
    if beats * beat_frames <= u64::MAX {
        (beats * beat_frames) as u64
    } else {
        u64::MAX
    }
}

impl CountIn {
    /// A count of `beats` beats, `beat_frames` long each, `per_bar` to a bar, not yet begun.
    pub fn new(beats: u32, beat_frames: u64, per_bar: u32) -> (count: Self)
        ensures
            count.beats == beats,
            count.beat_frames == beat_frames,
            count.per_bar == per_bar,
            count.remaining_frames == count_total(beats, beat_frames),
    {
        let total = Self::total_of(beats, beat_frames);
        CountIn { beats, beat_frames, per_bar, remaining_frames: total }
    }

    fn total_of(beats: u32, beat_frames: u64) -> (total: u64)
        ensures
            total == count_total(beats, beat_frames),
    {
        let beats = beats as u64;
        if beats == 0 {
            return 0;
        }
        if beat_frames <= u64::MAX / beats {
            proof {
                assert(beats * beat_frames <= u64::MAX) by (nonlinear_arith)
                    requires
                        beats > 0,
                        beat_frames <= u64::MAX / beats,
                ;
            }
            beats * beat_frames
        } else {
            proof {
                assert(beats * beat_frames > u64::MAX) by (nonlinear_arith)
                    requires
                        beats > 0,
                        beat_frames > u64::MAX / beats,
                ;
            }
            u64::MAX
        }
    }

    /// Frames the whole count lasts.
    pub fn total_frames(&self) -> (total: u64)
        ensures
            total == count_total(self.beats, self.beat_frames),
    {
        Self::total_of(self.beats, self.beat_frames)
    }

    /// Frames of the count already played.
    pub fn elapsed_frames(&self) -> (elapsed: u64)
        ensures
            elapsed == elapsed_of(*self),
    {
        self.total_frames().saturating_sub(self.remaining_frames)
    }
}

/// Frames of the count already played.
pub open spec fn elapsed_of(count: CountIn) -> u64 {
    let total = count_total(count.beats, count.beat_frames);
    if total >= count.remaining_frames {
        (total - count.remaining_frames) as u64
    } else {
        0
    }
}

/// The first beat at or after `from` frames into the count.
pub open spec fn first_beat(from: u64, beat_frames: u64) -> int {
    from / beat_frames + if from % beat_frames == 0 {
        0int
    } else {
        1int
    }
}

/// The frame of the count on which beat `beat` falls.
pub open spec fn beat_start(count: CountIn, beat: int) -> int {
    beat * count.beat_frames
}

/// Whether beat `beat` sounds in a block that ends before frame `to` of the count.
pub open spec fn beat_sounds(count: CountIn, beat: int, to: int) -> bool {
    beat < count.beats && beat_start(count, beat) < to
}

/// The click for beat `beat` of a count, in a block starting `from` frames into the count.
pub open spec fn beat_click(count: CountIn, beat: int, from: u64) -> Click {
    Click {
        frame: (beat_start(count, beat) - from) as usize,
        accent: beat % (if count.per_bar == 0 {
            1
        } else {
            count.per_bar as int
        }) == 0,
    }
}

/// Each of `clicks` is the click of the beat at its place counting from beat `b0`, and every
/// one of those beats sounds in a block from `from` up to `to`.
pub open spec fn clicks_are_beats(count: CountIn, clicks: Seq<Click>, b0: int, from: u64, to: int) -> bool {
    &&& forall|i: int| 0 <= i < clicks.len() ==> #[trigger] clicks[i] == beat_click(count, b0 + i, from)
    &&& forall|i: int| 0 <= i < clicks.len() ==> #[trigger] beat_sounds(count, b0 + i, to)
}

/// The first beat at or after frame `x` of a count whose beats are `beat_frames` long.
pub open spec fn first_beat_at(x: int, beat_frames: int) -> int {
    x / beat_frames + if x % beat_frames == 0 {
        0int
    } else {
        1int
    }
}

/// A beat starts before frame `x` exactly when it comes before the first beat at or after `x`.
pub proof fn lemma_first_beat_at(x: int, beat_frames: int, beat: int)
    requires
        beat_frames > 0,
        x >= 0,
        beat >= 0,
    ensures
        beat * beat_frames < x <==> beat < first_beat_at(x, beat_frames),
{
    let q = x / beat_frames;
    let r = x % beat_frames;
    assert(x == beat_frames * q + r && 0 <= r < beat_frames) by (nonlinear_arith)
        requires
            beat_frames > 0,
            q == x / beat_frames,
            r == x % beat_frames,
    ;
    assert(beat * beat_frames < x <==> beat < q + if r == 0 {
        0int
    } else {
        1int
    }) by (nonlinear_arith)
        requires
            beat_frames > 0,
            beat >= 0,
            x == beat_frames * q + r,
            0 <= r < beat_frames,
    ;
}

/// The clicks a count-in holds in its next `frames`: every beat from the first at or after the
/// elapsed part of the count that is one of the count's beats and starts before the block ends,
/// at most [`MAX_CLICKS`] of them. A count whose beats have no length holds none.
pub open spec fn count_in_plan(count: CountIn, frames: usize) -> Seq<Click> {
    let bf = count.beat_frames as int;
    if bf == 0 {
        Seq::empty()
    } else {
        let from = elapsed_of(count);
        let b0 = first_beat_at(from as int, bf);
        let past = first_beat_at(from + frames, bf);
        let end = if count.beats < past {
            count.beats as int
        } else {
            past
        };
        let n = if end <= b0 {
            0
        } else if end - b0 < MAX_CLICKS {
            end - b0
        } else {
            MAX_CLICKS as int
        };
        Seq::new(n as nat, |i: int| beat_click(count, b0 + i, from))
    }
}

/// Clicks that are the block's beats, in order, stopping only when the buffer is full or the
/// beats stop sounding, are exactly the plan.
pub proof fn lemma_clicks_are_plan(count: CountIn, frames: usize, clicks: Seq<Click>)
    requires
        count.beat_frames > 0,
        clicks.len() <= MAX_CLICKS,
        clicks_are_beats(
            count,
            clicks,
            first_beat(elapsed_of(count), count.beat_frames),
            elapsed_of(count),
            elapsed_of(count) + frames,
        ),
        clicks.len() == MAX_CLICKS || !beat_sounds(
            count,
            first_beat(elapsed_of(count), count.beat_frames) + clicks.len(),
            elapsed_of(count) + frames,
        ),
    ensures
        clicks == count_in_plan(count, frames),
{
    let bf = count.beat_frames as int;
    let from = elapsed_of(count);
    let to = from + frames;
    let b0 = first_beat(from, count.beat_frames);
    assert(b0 == first_beat_at(from as int, bf));
    assert(b0 >= 0) by (nonlinear_arith)
        requires
            bf > 0,
            from >= 0,
            b0 == (from as int) / bf + if (from as int) % bf == 0 {
                0int
            } else {
                1int
            },
    ;
    let past = first_beat_at(to, bf);
    let end = if count.beats < past {
        count.beats as int
    } else {
        past
    };
    let plan = count_in_plan(count, frames);
    let len = clicks.len() as int;
    if len > 0 {
        let last = len - 1;
        assert(beat_sounds(count, b0 + last, to));
        lemma_first_beat_at(to, bf, b0 + last);
    }
    if len < MAX_CLICKS {
        lemma_first_beat_at(to, bf, b0 + len);
    }
    assert(plan.len() == len);
    assert forall|i: int| 0 <= i < len implies clicks[i] == plan[i] by {
        assert(clicks[i] == beat_click(count, b0 + i, from));
    }
    assert(clicks =~= plan);
}

/// The beats a block of the count-in reaches all start within the timeline's frame counter: the
/// last beat the count could click in the block (its last beat, the first one at or after the
/// block's end, or the one after a full click buffer, whichever comes first) starts at a frame a
/// `u64` holds.
pub open spec fn count_in_fits(count: CountIn, frames: usize) -> bool {
    let bf = count.beat_frames as int;
    let from = elapsed_of(count) as int;
    if bf == 0 || frames == 0 {
        true
    } else {
        let b0 = first_beat_at(from, bf);
        let past = first_beat_at(from + frames, bf);
        let last = count.beats - 1;
        let reach = if last <= past && last <= b0 + MAX_CLICKS {
            last
        } else if past <= b0 + MAX_CLICKS {
            past
        } else {
            b0 + MAX_CLICKS
        };
        reach * bf <= u64::MAX
    }
}

/// The clicks of a count-in falling inside the next `frames`.
///
/// Every beat from the first at or after the elapsed part of the count, while it is one of the
/// count's beats and starts before the block ends, at most [`MAX_CLICKS`] of them. `out` is
/// emptied first. A block of no length, or a count whose beats have no length, holds none.
pub fn count_in_clicks(count: CountIn, frames: usize, out: &mut Vec<Click>)
    requires
        count_in_fits(count, frames),
        elapsed_of(count) + frames <= u64::MAX,
    ensures
        ({
            let from = elapsed_of(count);
            let to = from + frames;
            let b0 = first_beat(from, count.beat_frames);
            if frames == 0 || count.beat_frames == 0 {
                final(out)@.len() == 0
            } else {
                &&& final(out)@.len() <= MAX_CLICKS
                &&& clicks_are_beats(count, final(out)@, b0, from, to)
                &&& (final(out)@.len() == MAX_CLICKS || !beat_sounds(
                    count,
                    b0 + final(out)@.len(),
                    to,
                ))
            }
        }),
        final(out)@ == count_in_plan(count, frames),
{
    out.clear();
    if count.beat_frames == 0 {
        return;
    }
    if frames == 0 {
        proof {
            let from = elapsed_of(count);
            let b0 = first_beat_at(from as int, count.beat_frames as int);
            lemma_first_beat_at(from as int, count.beat_frames as int, b0);
            assert(out@ =~= count_in_plan(count, frames));
        }
        return;
    }
    let bf = count.beat_frames;
    let from = count.elapsed_frames();
    let to = from + frames as u64;
    let mut beat: u64 = from / bf + if from % bf == 0 {
        0
    } else {
        1
    };
    let ghost b0: int = beat as int;
    let per_bar: u64 = if count.per_bar == 0 {
        1
    } else {
        count.per_bar as u64
    };
    proof {
        assert(from <= b0 * bf) by (nonlinear_arith)
            requires
                bf > 0,
                b0 == from / bf + if from % bf == 0 {
                    0int
                } else {
                    1int
                },
        ;
    }
    while beat < count.beats as u64
        invariant_except_break
            bf == count.beat_frames,
            bf > 0,
            frames > 0,
            count_in_fits(count, frames),
            to == from + frames,
            from == elapsed_of(count),
            b0 == first_beat(from, bf),
            from <= b0 * bf,
            beat == b0 + out@.len(),
            per_bar == if count.per_bar == 0 {
                1
            } else {
                count.per_bar as int
            },
            out@.len() <= MAX_CLICKS,
            clicks_are_beats(count, out@, b0, from, to as int),
        ensures
            out@.len() <= MAX_CLICKS,
            beat == b0 + out@.len(),
            clicks_are_beats(count, out@, b0, from, to as int),
            out@.len() == MAX_CLICKS || !beat_sounds(count, beat as int, to as int),
        decreases count.beats as u64 - beat,
    {
        proof {
            let past = first_beat_at(to as int, bf as int);
            assert(b0 == first_beat_at(from as int, bf as int));
            assert(b0 >= 0) by (nonlinear_arith)
                requires
                    bf > 0,
                    from >= 0,
                    b0 == (from as int) / (bf as int) + if (from as int) % (bf as int) == 0 {
                        0int
                    } else {
                        1int
                    },
            ;
            if out@.len() > 0 {
                let last = out@.len() - 1;
                assert(beat_sounds(count, b0 + last, to as int));
                lemma_first_beat_at(to as int, bf as int, b0 + last);
            } else if b0 > 0 {
                lemma_first_beat_at(from as int, bf as int, b0 - 1);
                lemma_first_beat_at(to as int, bf as int, b0 - 1);
            }
            assert(beat <= past);
            let lastb = count.beats - 1;
            let reach = if lastb <= past && lastb <= b0 + MAX_CLICKS {
                lastb
            } else if past <= b0 + MAX_CLICKS {
                past
            } else {
                b0 + MAX_CLICKS
            };
            assert(beat <= reach);
            assert(reach * bf <= u64::MAX);
            assert(beat * bf <= reach * bf) by (nonlinear_arith)
                requires
                    beat <= reach,
                    bf > 0,
            ;
            assert(b0 * bf <= beat * bf) by (nonlinear_arith)
                requires
                    b0 <= beat,
                    bf > 0,
            ;
        }
        let start = beat * bf;
        if start >= to {
            break;
        }
        if out.len() == MAX_CLICKS {
            break;
        }
        let at = start - from;
        let ghost before = out@;
        out.push(Click { frame: at as usize, accent: beat % per_bar == 0 });
        proof {
            assert(clicks_are_beats(count, before, b0, from, to as int));
            assert forall|i: int| 0 <= i < out@.len() implies #[trigger] beat_sounds(count, b0 + i, to as int) by {
                if i < before.len() {
                    assert(beat_sounds(count, b0 + i, to as int));
                } else {
                    assert(b0 + i == beat);
                }
            }
            assert forall|i: int| 0 <= i < out@.len() implies #[trigger] out@[i] == beat_click(count, b0 + i, from) by {
                if i < before.len() {
                    assert(out@[i] == before[i]);
                } else {
                    assert(i == before.len());
                    assert(b0 + i == beat);
                    assert(beat_sounds(count, beat as int, to as int));
                    assert(out@[i].frame == beat_click(count, beat as int, from).frame);
                    assert(out@[i].accent == beat_click(count, beat as int, from).accent);
                }
            }
            assert(clicks_are_beats(count, out@, b0, from, to as int));
        }
        beat = beat + 1;
    }
    proof {
        lemma_clicks_are_plan(count, frames, out@);
    }
}

/// The count-in `count` once it has run on `frames` frames further: what remains of it shrinks
/// by those frames, and no further than to nothing.
pub open spec fn count_advanced(count: CountIn, frames: u64) -> CountIn {
    let left = if frames <= count.remaining_frames {
        (count.remaining_frames - frames) as u64
    } else {
        0u64
    };
    CountIn { remaining_frames: left, ..count }
}

/// The clicks of a block moved `by` frames later, as the tail of a longer block sees them.
pub open spec fn clicks_shifted(clicks: Seq<Click>, by: usize) -> Seq<Click> {
    clicks.map_values(|click: Click| Click { frame: (click.frame + by) as usize, ..click })
}

/// A block that runs past the end of a count-in clicks every beat left in it, and once the count
/// has run out nothing clicks.
proof fn lemma_count_in_block_past_the_end(count: CountIn, first: usize, second: usize)
    requires
        count.beat_frames > 0,
        first > count.remaining_frames,
        count.remaining_frames <= count_total(count.beats, count.beat_frames),
        elapsed_of(count) + first + second <= u64::MAX,
        first + second <= usize::MAX,
    ensures
        count_in_plan(count_advanced(count, first as u64), second).len() == 0,
        count_in_plan(count, first) == count_in_plan(count, (first + second) as usize),
{
    let bf = count.beat_frames as int;
    let beats = count.beats as int;
    let total = count_total(count.beats, count.beat_frames);
    let e = elapsed_of(count) as int;
    // Had the total been cut off at the largest frame, the block could not end past it.
    assert(total < u64::MAX);
    assert(total == beats * bf);
    assert(e + first > beats * bf);
    let later = count_advanced(count, first as u64);
    assert(elapsed_of(later) == total);
    assert(first_beat_at(beats * bf, bf) == beats) by (nonlinear_arith)
        requires
            bf > 0,
            beats >= 0,
    ;
    lemma_first_beat_at(e + first, bf, beats);
    lemma_first_beat_at(e + first + second, bf, beats);
}

/// Two touching blocks of a count-in click exactly the beats the one block covering both clicks:
/// every beat lands in one of them, never in both and never in neither, and the second block's
/// clicks are where the longer block has them. (So long as no block fills its click buffer.)
pub proof fn lemma_count_in_blocks_touch(count: CountIn, first: usize, second: usize)
    requires
        count.beat_frames > 0,
        count.remaining_frames <= count_total(count.beats, count.beat_frames),
        elapsed_of(count) + first + second <= u64::MAX,
        first + second <= usize::MAX,
        count_in_plan(count, (first + second) as usize).len() < MAX_CLICKS,
    ensures
        count_in_plan(count, first) + clicks_shifted(
            count_in_plan(count_advanced(count, first as u64), second),
            first,
        ) == count_in_plan(count, (first + second) as usize),
{
    if first > count.remaining_frames {
        lemma_count_in_block_past_the_end(count, first, second);
    } else {
        lemma_count_in_blocks_touch_inside(count, first, second);
    }
}

/// The same, for a first block that ends inside what remains of the count.
proof fn lemma_count_in_blocks_touch_inside(count: CountIn, first: usize, second: usize)
    requires
        count.beat_frames > 0,
        first <= count.remaining_frames <= count_total(count.beats, count.beat_frames),
        elapsed_of(count) + first + second <= u64::MAX,
        first + second <= usize::MAX,
        count_in_plan(count, (first + second) as usize).len() < MAX_CLICKS,
    ensures
        count_in_plan(count, first) + clicks_shifted(
            count_in_plan(count_advanced(count, first as u64), second),
            first,
        ) == count_in_plan(count, (first + second) as usize),
{
    let bf = count.beat_frames as int;
    let later = count_advanced(count, first as u64);
    let e = elapsed_of(count) as int;
    assert(elapsed_of(later) == e + first);
    let b0 = first_beat_at(e, bf);
    let m = first_beat_at(e + first, bf);
    let t = first_beat_at(e + first + second, bf);
    let beats = count.beats as int;
    // The first beats at or after three points in order come in order.
    assert(b0 >= 0 && m >= 0 && t >= 0) by (nonlinear_arith)
        requires
            bf > 0,
            e >= 0,
            b0 == first_beat_at(e, bf),
            m == first_beat_at(e + first, bf),
            t == first_beat_at(e + first + second, bf),
            first >= 0,
            second >= 0,
    ;
    if b0 > 0 {
        lemma_first_beat_at(e, bf, b0 - 1);
        lemma_first_beat_at(e + first, bf, b0 - 1);
    }
    lemma_first_beat_at(e + first, bf, m);
    if m > 0 {
        lemma_first_beat_at(e + first, bf, m - 1);
        lemma_first_beat_at(e + first + second, bf, m - 1);
    }
    lemma_first_beat_at(e + first + second, bf, t);
    assert(b0 <= m <= t);
    let one = count_in_plan(count, first);
    let two = count_in_plan(later, second);
    let whole = count_in_plan(count, (first + second) as usize);
    let shifted = clicks_shifted(two, first);
    assert(one.len() + two.len() == whole.len());
    assert forall|i: int| 0 <= i < whole.len() implies (one + shifted)[i] == whole[i] by {
        if i < one.len() {
        } else {
            let k = i - one.len();
            assert(b0 + i == m + k);
            lemma_first_beat_at(e + first + second, bf, m + k);
            assert((m + k) * bf >= m * bf) by (nonlinear_arith)
                requires
                    k >= 0,
                    bf > 0,
            ;
            assert(shifted[k] == Click {
                frame: (two[k].frame + first) as usize,
                ..two[k]
            });
        }
    }
    assert(one + shifted =~= whole);
}

/// A beat sounds in the block starting `from` frames into the count exactly when it starts
/// inside that block: so of two blocks that touch, each beat is claimed by one of them.
pub proof fn lemma_count_in_beat_claimed_once(count: CountIn, beat: int, from: u64, to: int)
    requires
        count.beat_frames > 0,
        beat >= 0,
    ensures
        (beat >= first_beat(from, count.beat_frames) && beat_sounds(count, beat, to)) <==> (from
            <= beat * count.beat_frames && beat * count.beat_frames < to && beat < count.beats),
{
    let bf = count.beat_frames as int;
    let f = from as int;
    assert(f == bf * (f / bf) + f % bf && 0 <= f % bf < bf) by (nonlinear_arith)
        requires
            bf > 0,
            f >= 0,
    ;
    assert(beat >= first_beat(from, count.beat_frames) <==> f <= beat * bf) by (nonlinear_arith)
        requires
            bf > 0,
            beat >= 0,
            first_beat(from, count.beat_frames) == f / bf + if f % bf == 0 {
                0int
            } else {
                1int
            },
            f == bf * (f / bf) + f % bf,
            0 <= f % bf < bf,
    ;
}

/// The felt beat of a signature, never zero.
pub fn beat_of(beat_ticks: u64) -> (beat: u64)
    ensures
        beat == beat_of_spec(beat_ticks),
{
    if beat_ticks == 0 {
        1
    } else {
        beat_ticks
    }
}

/// The first beat at or after `tick`, measured from the bar line `bar` at or before it, in a
/// bar whose beats are `beat` ticks long.
///
/// Measured from the bar line rather than from tick zero, so a meter change part way through
/// the song does not leave every beat after it counted from the wrong place.
pub fn first_beat_from(tick: u64, bar: u64, beat: u64) -> (first: u64)
    requires
        bar <= tick,
        beat > 0,
        tick + beat <= u64::MAX,
    ensures
        tick <= first < tick + beat,
        (first - bar) % (beat as int) == 0,
{
    let into = (tick - bar) % beat;
    if into == 0 {
        tick
    } else {
        proof {
            assert(((tick - bar) + (beat - into)) % (beat as int) == 0) by (nonlinear_arith)
                requires
                    beat > 0,
                    into == (tick - bar) % (beat as int),
                    0 < into < beat,
            ;
        }
        tick + (beat - into)
    }
}

/// Where a beat at timeline frame `frame` lands in a block of `frames` starting at `position`:
/// clamped into the block, because the two tempo conversions are not exact inverses.
pub fn click_offset(frame: u64, position: u64, frames: usize) -> (offset: usize)
    requires
        frames > 0,
    ensures
        offset < frames,
        offset == if frame <= position {
            0
        } else if frame - position < frames {
            (frame - position) as usize
        } else {
            (frames - 1) as usize
        },
{
    let after = frame.saturating_sub(position);
    if after < frames as u64 {
        after as usize
    } else {
        frames - 1
    }
}

/// One step of counting the beats of a block that ends at tick `end`: the beat at `tick`, which
/// the tempo map places at timeline frame `frame` in the bar starting at tick `bar`, whose beats
/// are `beat_ticks` long. `None` once the beats have passed the block's end or the block already
/// holds [`MAX_CLICKS`]; otherwise the click, placed inside the block of `frames` frames starting
/// at `position` and accented on the bar line, and the tick of the next beat.
pub fn click_step(
    tick: u64,
    end: u64,
    held: usize,
    frame: u64,
    bar: u64,
    beat_ticks: u64,
    position: u64,
    frames: usize,
) -> (step: Option<(Click, u64)>)
    requires
        frames > 0,
        tick + beat_of_spec(beat_ticks) <= u64::MAX,
    ensures
        step == if tick >= end || held >= MAX_CLICKS {
            None::<(Click, u64)>
        } else {
            Some(
                (
                    Click {
                        frame: if frame <= position {
                            0
                        } else if frame - position < frames {
                            (frame - position) as usize
                        } else {
                            (frames - 1) as usize
                        },
                        accent: bar == tick,
                    },
                    (tick + beat_of_spec(beat_ticks)) as u64,
                ),
            )
        },
{
    if tick >= end || held >= MAX_CLICKS {
        return None;
    }
    let offset = click_offset(frame, position, frames);
    let beat = beat_of(beat_ticks);
    Some((Click { frame: offset, accent: bar == tick }, tick + beat))
}

/// The felt beat of a signature whose beat is `beat_ticks` long: never zero.
pub open spec fn beat_of_spec(beat_ticks: u64) -> u64 {
    if beat_ticks == 0 {
        1
    } else {
        beat_ticks
    }
}

} // verus!
