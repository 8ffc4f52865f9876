//! Hearing the input through the mix: the decisions the monitor ring makes.
//!
//! The ring itself is shared by two realtime callbacks through atomics and carries samples in
//! floating point; what is decided here is everything that is counted in frames — which device
//! channels are taken, whether a writer's block fits, where a frame lands in the ring, how big
//! the ring is, and where the reader should be when the two clocks drift apart.
use vstd::prelude::*;

verus! {

/// What the reader position holds while the reader is waiting for enough input to start.
pub const NOT_STARTED: u64 = 0xffff_ffff_ffff_ffff;

/// How far behind the writer the reader sits, in output blocks.
pub const TARGET_BLOCKS: u64 = 3;

/// Baseline frames the ring holds at a 1:1 device-rate ratio, per channel.
pub const BASE_RING_FRAMES: usize = 16384;

/// Largest input-monitor ring permitted per listening slot.
pub const MAX_RING_FRAMES: usize = 1048576;

/// What the reader should do with the block it has been asked for.
#[derive(Copy, Clone, Debug, PartialEq, Eq)]
pub enum Seat {
    /// Carry on from where it was.
    Play,
    /// Start again this many frames in, because the gap to the writer is no longer usable.
    Reseat(u64),
    /// Nothing to play yet; the ring has not filled to its target.
    Wait,
}

/// `a + b`, saturating at `u64::MAX`.
pub open spec fn sat_add_u64(a: u64, b: u64) -> u64 {
    if a + b <= u64::MAX {
        (a + b) as u64
    } else {
        u64::MAX
    }
}

/// `a - b`, saturating at zero.
pub open spec fn sat_sub_u64(a: u64, b: u64) -> u64 {
    if a >= b {
        (a - b) as u64
    } else {
        0
    }
}

/// The drift policy, written out: what [`seat`] answers.
pub open spec fn seat_spec(read: u64, written: u64, need: u64, target: u64, capacity: u64) -> Seat {
    if read == NOT_STARTED {
        if written >= target {
            Seat::Reseat((written - target) as u64)
        } else {
            Seat::Wait
        }
    } else {
        let doubled = if 2 * target <= u64::MAX {
            (2 * target) as u64
        } else {
            u64::MAX
        };
        let limit = if doubled <= capacity {
            doubled
        } else {
            capacity
        };
        if sat_add_u64(read, need) <= written && sat_sub_u64(written, read) <= limit {
            Seat::Play
        } else {
            let back = sat_sub_u64(written, target);
            let at = if back >= read {
                back
            } else {
                read
            };
            if sat_add_u64(at, need) <= written {
                Seat::Reseat(at)
            } else {
                Seat::Wait
            }
        }
    }
}

/// Where the reader should be, given where the writer has got to.
///
/// Starting, the reader waits for a whole `target` and then sits that far behind the writer.
/// Once playing it carries on while the next block of `need` frames has arrived and it is no
/// more than twice the target (capped by the ring) behind. Otherwise it re-seats as far back as
/// the target allows but never behind where it already played, or waits when even that has
/// nothing to play.
pub fn seat(read: u64, written: u64, need: u64, target: u64, capacity: u64) -> (answer: Seat)
    ensures
        answer == seat_spec(read, written, need, target, capacity),
{
    if read == NOT_STARTED {
        return if written >= target {
            Seat::Reseat(written - target)
        } else {
            Seat::Wait
        };
    }
    let doubled = if target <= u64::MAX / 2 {
        target * 2
    } else {
        u64::MAX
    };
    let limit = if doubled <= capacity {
        doubled
    } else {
        capacity
    };
    if read.saturating_add(need) <= written && written.saturating_sub(read) <= limit {
        return Seat::Play;
    }
    let back = written.saturating_sub(target);
    let at = if back >= read {
        back
    } else {
        read
    };
    if at.saturating_add(need) <= written {
        Seat::Reseat(at)
    } else {
        Seat::Wait
    }
}

/// The reader never goes backwards: a running reader that re-seats lands at or ahead of where
/// it was, and whatever it is told to play — carrying on or from a new seat — has a whole block
/// of input behind it.
pub proof fn lemma_seat_never_replays(read: u64, written: u64, need: u64, target: u64, capacity: u64)
    ensures
        read != NOT_STARTED ==> match seat_spec(read, written, need, target, capacity) {
            Seat::Reseat(at) => at >= read && sat_add_u64(at, need) <= written,
            Seat::Play => sat_add_u64(read, need) <= written,
            Seat::Wait => true,
        },
        read == NOT_STARTED ==> match seat_spec(read, written, need, target, capacity) {
            Seat::Reseat(at) => at + target == written,
            Seat::Play => false,
            Seat::Wait => written < target,
        },
{
}

/// Which two channels of a device frame the monitor takes, counting from the channel it was
/// pointed at: the pair starting at `first`, or that one channel twice where the source is one
/// channel wide or the device has nothing beside it. `None` when the device has no such channel.
pub fn monitor_pair(first: usize, count: usize, channels: usize) -> (pair: Option<(usize, usize)>)
    ensures
        pair == if first < channels {
            Some(
                (
                    first,
                    if count == 1 {
                        first
                    } else if first + 1 <= channels - 1 {
                        (first + 1) as usize
                    } else {
                        (channels - 1) as usize
                    },
                ),
            )
        } else {
            None::<(usize, usize)>
        },
{
    if first < channels {
        let right = if count == 1 {
            first
        } else if first + 1 <= channels - 1 {
            first + 1
        } else {
            channels - 1
        };
        Some((first, right))
    } else {
        None
    }
}

/// Both channels of a pair are channels the device has.
pub proof fn lemma_pair_in_range(first: usize, count: usize, channels: usize)
    requires
        first < channels,
    ensures
        ({
            let right = if count == 1 {
                first
            } else if first + 1 <= channels - 1 {
                (first + 1) as usize
            } else {
                (channels - 1) as usize
            };
            first <= right < channels
        }),
{
}

/// Frames the writer may still add before it would reach what the reader has not yet read:
/// counted from the reader's position, or from where the current generation of input began
/// while the reader has not started.
pub fn unread_frames(read: u64, written: u64, generation_start: u64) -> (unread: u64)
    ensures
        unread == if read == NOT_STARTED {
            sat_sub_u64(written, generation_start)
        } else {
            sat_sub_u64(written, read)
        },
{
    if read == NOT_STARTED {
        written.saturating_sub(generation_start)
    } else {
        written.saturating_sub(read)
    }
}

/// Whether a writer's block of `frames` may be published into a ring of `capacity` frames
/// holding `unread` frames nobody has read: it must neither span the ring nor lap the reader.
pub fn admits_block(frames: u64, unread: u64, capacity: u64) -> (admitted: bool)
    ensures
        admitted == (frames < capacity && sat_add_u64(unread, frames) < capacity),
{
    !(frames >= capacity || unread.saturating_add(frames) >= capacity)
}

/// The ring slot of the `frame`-th frame of a block written at absolute position `written`.
///
/// Both operands are reduced before they are added, so the absolute counter can run to its
/// limit without the addition overflowing.
pub fn slot_frame(written: u64, frame: u64, capacity: u64) -> (slot: u64)
    requires
        capacity > 0,
        capacity <= u64::MAX / 2,
        frame < capacity,
    ensures
        slot == (written + frame) % (capacity as int),
        slot < capacity,
{
    proof {
        vstd::arithmetic::div_mod::lemma_add_mod_noop(written as int, frame as int, capacity as int);
        vstd::arithmetic::div_mod::lemma_small_mod(frame as nat, capacity as nat);
        vstd::arithmetic::div_mod::lemma_mod_bound(written as int, capacity as int);
    }
    (written % capacity + frame) % capacity
}

/// A ring holding `required` frames or more: the smallest power of two that does, or `None`
/// when that would be more than [`MAX_RING_FRAMES`].
pub fn ring_frames_for(required: usize) -> (capacity: Option<usize>)
    ensures
        match capacity {
            Some(c) => {
                &&& is_power_of_two(c as nat)
                &&& required <= c <= MAX_RING_FRAMES
                &&& (c == 1 || c / 2 < required)
            },
            None => required > MAX_RING_FRAMES,
        },
{
    let mut p: usize = 1;
    let ghost mut k: nat = 0;
    proof {
        vstd::arithmetic::power2::lemma2_to64();
    }
    while p < required && p < MAX_RING_FRAMES
        invariant
            1 <= p <= MAX_RING_FRAMES,
            p == vstd::arithmetic::power2::pow2(k),
            MAX_RING_FRAMES == vstd::arithmetic::power2::pow2(20),
            p == 1 || p / 2 < required,
        decreases MAX_RING_FRAMES - p,
    {
        proof {
            if k >= 20 {
                if k > 20 {
                    vstd::arithmetic::power2::lemma_pow2_strictly_increases(20, k);
                }
            }
            vstd::arithmetic::power2::lemma_pow2_unfold(k + 1);
            if k + 1 < 20 {
                vstd::arithmetic::power2::lemma_pow2_strictly_increases(k + 1, 20);
            }
        }
        p = p * 2;
        proof {
            k = k + 1;
        }
    }
    if p >= required {
        Some(p)
    } else {
        None
    }
}

/// `p` is a power of two.
pub open spec fn is_power_of_two(p: nat) -> bool {
    exists|k: nat| vstd::arithmetic::power2::pow2(k) == p
}

/// Ring capacity that keeps the ordinary jitter margin, once the rate pair has been turned into
/// frame counts: `need` input frames per output block, a `target` the reader sits behind, and
/// the baseline scaled up for a faster input.
///
/// The ring must hold the baseline, the scaled baseline, and twice the target plus one more
/// block — twice the target being the late-reader limit [`seat`] uses — rounded up to a power
/// of two. `None` when that does not fit in [`MAX_RING_FRAMES`] or overflows on the way.
pub fn planned_capacity_frames(need: u64, target: u64, scaled_baseline: usize) -> (capacity:
    Option<usize>)
    ensures
        ({
            let policy: int = 2 * target + need;
            let required: int = if policy > usize::MAX {
                -1
            } else {
                let a: int = if BASE_RING_FRAMES >= scaled_baseline {
                    BASE_RING_FRAMES as int
                } else {
                    scaled_baseline as int
                };
                if a >= policy {
                    a
                } else {
                    policy
                }
            };
            match capacity {
                Some(c) => {
                    &&& 0 <= required <= c <= MAX_RING_FRAMES
                    &&& is_power_of_two(c as nat)
                    &&& (c == 1 || c / 2 < required)
                },
                None => required < 0 || required > MAX_RING_FRAMES,
            }
        }),
{
    let doubled = match target.checked_mul(2) {
        Some(d) => d,
        None => return None,
    };
    let policy = match doubled.checked_add(need) {
        Some(p) => p,
        None => return None,
    };
    if policy > usize::MAX as u64 {
        return None;
    }
    let policy = policy as usize;
    let mut required = BASE_RING_FRAMES;
    if scaled_baseline > required {
        required = scaled_baseline;
    }
    if policy > required {
        required = policy;
    }
    ring_frames_for(required)
}

/// A monitor source packed into one word: the first device channel in the low half and the
/// channel count, at least one, in the high half, each saturated to 32 bits.
pub open spec fn packed_source(first: usize, count: usize) -> u64 {
    let f: int = if first <= 0xffff_ffff {
        first as int
    } else {
        0xffff_ffff
    };
    let c: int = if count <= 0xffff_ffff {
        count as int
    } else {
        0xffff_ffff
    };
    let c = if c == 0 {
        1
    } else {
        c
    };
    (f + c * 0x1_0000_0000) as u64
}

/// Packs a monitor source into one word, so a callback can never observe half of a change.
pub fn pack_source(first: usize, count: usize) -> (packed: u64)
    ensures
        packed == packed_source(first, count),
{
    let f: u64 = if first as u64 <= 0xffff_ffff {
        first as u64
    } else {
        0xffff_ffff
    };
    let c: u64 = if count as u64 <= 0xffff_ffff {
        count as u64
    } else {
        0xffff_ffff
    };
    let c: u64 = if c == 0 {
        1
    } else {
        c
    };
    f + c * 0x1_0000_0000
}

/// The first channel and the channel count a packed source holds.
pub fn unpack_source(packed: u64) -> (source: (usize, usize))
    ensures
        source.0 == packed % 0x1_0000_0000,
        source.1 == packed / 0x1_0000_0000,
{
    proof {
        assert(packed % 0x1_0000_0000 < 0x1_0000_0000);
        assert(packed / 0x1_0000_0000 < 0x1_0000_0000) by (nonlinear_arith)
            requires
                packed <= u64::MAX,
        ;
    }
    ((packed % 0x1_0000_0000) as usize, (packed / 0x1_0000_0000) as usize)
}

/// Unpacking a packed source gives back the channel and count it was packed from, each
/// saturated to 32 bits and the count at least one.
pub proof fn lemma_source_round_trip(first: usize, count: usize)
    ensures
        ({
            let packed = packed_source(first, count);
            &&& packed % 0x1_0000_0000 == if first <= 0xffff_ffff {
                first as int
            } else {
                0xffff_ffff
            }
            &&& packed / 0x1_0000_0000 == if count == 0 {
                1
            } else if count <= 0xffff_ffff {
                count as int
            } else {
                0xffff_ffff
            }
        }),
{
    let f: int = if first <= 0xffff_ffff {
        first as int
    } else {
        0xffff_ffff
    };
    let c: int = if count == 0 {
        1
    } else if count <= 0xffff_ffff {
        count as int
    } else {
        0xffff_ffff
    };
    assert((f + c * 0x1_0000_0000) % 0x1_0000_0000 == f && (f + c * 0x1_0000_0000)
        / 0x1_0000_0000 == c) by (nonlinear_arith)
        requires
            0 <= f < 0x1_0000_0000,
            1 <= c < 0x1_0000_0000,
    ;
}

/// What the writer does with an input block.
#[derive(Copy, Clone, Debug, PartialEq, Eq)]
pub enum WriteDecision {
    /// Leave the ring alone: the block is empty, or a reader is claiming a window it has not
    /// published yet.
    Skip,
    /// The block would span the ring or lap the reader: drop it, count a rebuffer, and ask for
    /// a fresh seat unless a reader is mid-read.
    Overflow {
        /// Whether a fresh generation is requested.
        reseat: bool,
    },
    /// Write the block into the ring and publish the new write position.
    Publish {
        /// The write position once the block is in.
        written: u64,
    },
}

/// Where the writer counts the unread part of the ring from: the active reader's claim, the
/// reader's position, or (before the first read) the start of the current generation. `None`
/// while an active reader has not published its claim yet.
pub open spec fn write_floor(reader_active: bool, claim: u64, read: u64, generation_start: u64) -> Option<u64> {
    let position = if reader_active {
        claim
    } else {
        read
    };
    if reader_active && claim == NOT_STARTED {
        None
    } else if position == NOT_STARTED {
        Some(generation_start)
    } else {
        Some(position)
    }
}

/// Decides what the writer does with a block of `frames` frames when the ring has been written
/// up to `written`.
pub fn plan_write(
    frames: u64,
    written: u64,
    reader_active: bool,
    claim: u64,
    read: u64,
    generation_start: u64,
    capacity: u64,
) -> (decision: WriteDecision)
    ensures
        decision == if frames == 0 {
            WriteDecision::Skip
        } else {
            match write_floor(reader_active, claim, read, generation_start) {
                None => WriteDecision::Skip,
                Some(floor) => if frames < capacity && sat_add_u64(sat_sub_u64(written, floor), frames)
                    < capacity {
                    WriteDecision::Publish { written: sat_add_u64(written, frames) }
                } else {
                    WriteDecision::Overflow { reseat: !reader_active }
                },
            }
        },
{
    if frames == 0 {
        return WriteDecision::Skip;
    }
    let position = if reader_active {
        if claim == NOT_STARTED {
            return WriteDecision::Skip;
        }
        claim
    } else {
        read
    };
    let unread = unread_frames(position, written, generation_start);
    if admits_block(frames, unread, capacity) {
        WriteDecision::Publish { written: written.saturating_add(frames) }
    } else {
        WriteDecision::Overflow { reseat: !reader_active }
    }
}

/// Two frames less than a ring apart never share a slot.
pub proof fn lemma_close_frames_differ(a: int, b: int, capacity: int)
    requires
        capacity > 0,
        0 <= a < b,
        b - a < capacity,
    ensures
        a % capacity != b % capacity,
{
    vstd::arithmetic::div_mod::lemma_fundamental_div_mod(a, capacity);
    vstd::arithmetic::div_mod::lemma_fundamental_div_mod(b, capacity);
    let qa = a / capacity;
    let qb = b / capacity;
    if a % capacity == b % capacity {
        assert(b - a == capacity * (qb - qa)) by (nonlinear_arith)
            requires
                a == capacity * qa + a % capacity,
                b == capacity * qb + b % capacity,
                a % capacity == b % capacity,
        ;
        if qb - qa >= 1 {
            assert(capacity * (qb - qa) >= capacity) by (nonlinear_arith)
                requires
                    qb - qa >= 1,
                    capacity > 0,
            ;
        } else {
            assert(capacity * (qb - qa) <= 0) by (nonlinear_arith)
                requires
                    qb - qa <= 0,
                    capacity > 0,
            ;
        }
    }
}

/// A published block never overwrites what the reader may still read: every slot it writes is
/// different from every slot between the writer's floor and the write position.
pub proof fn lemma_publish_spares_unread(
    frames: u64,
    written: u64,
    floor: u64,
    capacity: u64,
    unread_frame: int,
    new_frame: int,
)
    requires
        capacity > 0,
        written + frames <= u64::MAX,
        frames < capacity,
        sat_add_u64(sat_sub_u64(written, floor), frames) < capacity,
        floor <= unread_frame < written,
        written <= new_frame < written + frames,
    ensures
        unread_frame % (capacity as int) != new_frame % (capacity as int),
{
    lemma_close_frames_differ(unread_frame, new_frame, capacity as int);
}

/// Whether the reader plays, re-seats or waits on a block needing `need` input frames, with a
/// target distance of `target` frames: a block the ring cannot hold is refused, and a reader
/// that has not started waits until its whole target has arrived since it was seated at
/// `reader_start`; otherwise the drift policy answers.
pub fn plan_read(need: u64, target: u64, capacity: u64, read: u64, written: u64, reader_start: u64) -> (answer:
    Seat)
    ensures
        answer == if target > capacity || need > capacity {
            Seat::Wait
        } else if read == NOT_STARTED && sat_sub_u64(written, reader_start) < target {
            Seat::Wait
        } else {
            seat_spec(read, written, need, target, capacity)
        },
{
    if target > capacity || need > capacity {
        return Seat::Wait;
    }
    if read == NOT_STARTED && written.saturating_sub(reader_start) < target {
        return Seat::Wait;
    }
    seat(read, written, need, target, capacity)
}

/// The reader's own bookkeeping between output blocks.
#[derive(Copy, Clone, Debug, PartialEq, Eq)]
pub struct ReaderState {
    /// Where the reader has read up to, or [`NOT_STARTED`].
    pub read: u64,
    /// Where the current generation of input began when the reader adopted it.
    pub reader_start: u64,
    /// The generation the reader last adopted.
    pub generation: u64,
    /// Gaps a listener heard: re-seats of a reader that was already playing.
    pub rebuffers: u64,
}

/// What the reader decides at the start of an output block, given the ring's current
/// `generation` (and where it began), the block's input `need` and `target` distance, the ring's
/// `capacity` and how far the writer has `written`.
///
/// A new generation (monitoring switched on again, or the source changed) starts the reader over
/// from the live edge of that generation. Then the drift policy answers, after [`plan_read`]'s
/// refusals; a re-seat of a reader that was already playing is a gap somebody heard and counts
/// as one rebuffer, however long it lasted. Returns the reader's bookkeeping afterwards and the
/// answer; where the reader reads on to is settled once the block has been read.
pub fn reader_step(
    state: ReaderState,
    generation: u64,
    generation_start: u64,
    need: u64,
    target: u64,
    capacity: u64,
    written: u64,
) -> (step: (ReaderState, Seat))
    ensures
        ({
            let fresh = state.generation != generation;
            let read = if fresh {
                NOT_STARTED
            } else {
                state.read
            };
            let start = if fresh {
                generation_start
            } else {
                state.reader_start
            };
            let answer = if target > capacity || need > capacity {
                Seat::Wait
            } else if read == NOT_STARTED && sat_sub_u64(written, start) < target {
                Seat::Wait
            } else {
                seat_spec(read, written, need, target, capacity)
            };
            &&& step.1 == answer
            &&& step.0 == (ReaderState {
                read,
                reader_start: start,
                generation,
                rebuffers: if answer is Reseat && read != NOT_STARTED {
                    (state.rebuffers + 1) % 0x1_0000_0000_0000_0000
                } else {
                    state.rebuffers as int
                } as u64,
            })
        }),
{
    let fresh = state.generation != generation;
    let read = if fresh {
        NOT_STARTED
    } else {
        state.read
    };
    let reader_start = if fresh {
        generation_start
    } else {
        state.reader_start
    };
    let answer = plan_read(need, target, capacity, read, written, reader_start);
    let rebuffers = match answer {
        Seat::Reseat(_) => if read != NOT_STARTED {
            state.rebuffers.wrapping_add(1)
        } else {
            state.rebuffers
        },
        _ => state.rebuffers,
    };
    (ReaderState { read, reader_start, generation, rebuffers }, answer)
}

} // verus!
