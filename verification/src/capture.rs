//! Audio coming the other way: what is decided while an input device is recorded.
//!
//! The input callback hands its blocks to a pool of fixed-size buffers. How a block is cut
//! into those buffers — whole frames only, never a fraction of one — and how the counters a
//! take is measured by are read, is what is decided here.
use vstd::prelude::*;
use crate::device::{AudioDeviceInfo, ConfigRange, add_absent};

verus! {

/// What the take's start position holds until the first block arrives.
pub const NOT_STARTED: u64 = 0xffff_ffff_ffff_ffff;

/// What to ask the input device for.
#[derive(Clone, Debug, PartialEq)]
pub struct CaptureSettings {
    /// Name of the input device to open. `None` uses the system default.
    pub device: Option<String>,
    /// Preferred sample rate in Hz. Ignored when the device cannot do it.
    pub sample_rate: Option<u32>,
    /// Preferred callback size in frames. Ignored when the device cannot do it.
    pub block_frames: Option<u32>,
}

impl Default for CaptureSettings {
    fn default() -> (settings: Self)
        ensures
            settings.device is None,
            settings.sample_rate is None,
            settings.block_frames is None,
    {
        CaptureSettings { device: None, sample_rate: None, block_frames: None }
    }
}

/// Samples the callback threw away, as frames: whole frames of a device `channels` wide, a
/// device that reports no channels counting as one.
pub fn dropped_frames(dropped_samples: u64, channels: usize) -> (frames: u64)
    ensures
        frames == (dropped_samples as int) / (if channels == 0 {
            1
        } else {
            channels as int
        }),
{
    let width: u64 = if channels == 0 {
        1
    } else {
        channels as u64
    };
    dropped_samples / width
}

/// The playhead frame the take's first frame lines up with, once one has arrived.
pub fn started_at(stamp: u64) -> (start: Option<u64>)
    ensures
        start == if stamp == NOT_STARTED {
            None
        } else {
            Some(stamp)
        },
{
    if stamp == NOT_STARTED {
        None
    } else {
        Some(stamp)
    }
}

/// How much of a block one pooled buffer of `capacity` samples takes: as many whole frames of
/// `channels` samples as fit, or one sample when not even one frame does, and never more than
/// the `remaining` samples of the block. Returns the samples taken and the whole frames in them.
pub fn chunk_samples(capacity: usize, channels: usize, remaining: usize) -> (chunk: (usize, u64))
    ensures
        ({
            let width: int = if channels == 0 {
                1
            } else {
                channels as int
            };
            let whole = capacity - (capacity as int) % width;
            let room = if whole >= 1 {
                whole
            } else {
                1
            };
            &&& chunk.0 == if remaining < room {
                remaining as int
            } else {
                room
            }
            &&& chunk.1 == (chunk.0 as int) / width
        }),
{
    let width: usize = if channels == 0 {
        1
    } else {
        channels
    };
    proof {
        vstd::arithmetic::div_mod::lemma_mod_decreases(capacity as nat, width as nat);
    }
    let whole = capacity - capacity % width;
    let room = if whole >= 1 {
        whole
    } else {
        1
    };
    let take = if remaining < room {
        remaining
    } else {
        room
    };
    (take, (take / width) as u64)
}

/// A buffer that holds at least one frame is only ever handed whole frames of a block made of
/// whole frames: cutting never splits a frame across two buffers.
pub proof fn lemma_chunks_are_whole_frames(capacity: usize, width: int, remaining: int)
    requires
        width >= 1,
        capacity >= width,
        remaining >= 0,
        remaining % width == 0,
    ensures
        ({
            let room = capacity - (capacity as int) % width;
            let take = if remaining < room {
                remaining
            } else {
                room
            };
            &&& take % width == 0
            &&& (remaining - take) % width == 0
            &&& (remaining > 0 ==> take > 0)
        }),
{
    let room = capacity - (capacity as int) % width;
    let q = (capacity as int) / width;
    vstd::arithmetic::div_mod::lemma_fundamental_div_mod(capacity as int, width);
    assert(room == width * q);
    if q < 1 {
        assert(q == 0) by {
            vstd::arithmetic::div_mod::lemma_div_pos_is_pos(capacity as int, width);
        }
        assert(width * q == 0) by (nonlinear_arith)
            requires
                q == 0,
        ;
        assert(false);
    }
    assert(room >= width) by (nonlinear_arith)
        requires
            room == width * q,
            q >= 1,
            width >= 1,
    ;
    vstd::arithmetic::div_mod::lemma_fundamental_div_mod(remaining, width);
    let r = remaining / width;
    assert(remaining == width * r);
    let take = if remaining < room {
        remaining
    } else {
        room
    };
    let t = if remaining < room {
        r
    } else {
        q
    };
    assert(take == width * t);
    assert(remaining - take == width * (r - t)) by (nonlinear_arith)
        requires
            remaining == width * r,
            take == width * t,
    ;
    vstd::arithmetic::div_mod::lemma_mod_multiples_basic(t, width);
    vstd::arithmetic::div_mod::lemma_mod_multiples_basic(r - t, width);
    vstd::arithmetic::mul::lemma_mul_is_commutative(t, width);
    vstd::arithmetic::mul::lemma_mul_is_commutative(r - t, width);
}

/// The buffers a block of `len` samples is cut into, in order: each as [`chunk_samples`]
/// cuts what is left.
pub open spec fn chunk_plan_spec(capacity: usize, channels: usize, len: nat) -> Seq<usize>
    decreases len,
{
    if len == 0 {
        Seq::empty()
    } else {
        let width: int = if channels == 0 {
            1
        } else {
            channels as int
        };
        let whole = capacity - (capacity as int) % width;
        let room: int = if whole >= 1 {
            whole
        } else {
            1
        };
        let take: int = if len < room {
            len as int
        } else {
            room
        };
        seq![take as usize] + chunk_plan_spec(capacity, channels, (len - take) as nat)
    }
}

/// The sum of a plan's chunks.
pub open spec fn chunk_sum(chunks: Seq<usize>) -> nat
    decreases chunks.len(),
{
    if chunks.len() == 0 {
        0
    } else {
        (chunk_sum(chunks.drop_last()) + chunks.last()) as nat
    }
}

/// The sum over two joined plans.
pub proof fn lemma_chunk_sum_add(a: Seq<usize>, b: Seq<usize>)
    ensures
        chunk_sum(a + b) == chunk_sum(a) + chunk_sum(b),
    decreases b.len(),
{
    if b.len() == 0 {
        assert(a + b =~= a);
    } else {
        assert((a + b).drop_last() =~= a + b.drop_last());
        lemma_chunk_sum_add(a, b.drop_last());
    }
}

/// A block's chunks add up to the whole block: every sample goes into exactly one buffer.
pub proof fn lemma_chunk_plan_covers(capacity: usize, channels: usize, len: nat)
    ensures
        chunk_sum(chunk_plan_spec(capacity, channels, len)) == len,
    decreases len,
{
    if len > 0 {
        let width: int = if channels == 0 {
            1
        } else {
            channels as int
        };
        let whole = capacity - (capacity as int) % width;
        let room: int = if whole >= 1 {
            whole
        } else {
            1
        };
        let take: int = if len < room {
            len as int
        } else {
            room
        };
        lemma_chunk_plan_covers(capacity, channels, (len - take) as nat);
        lemma_chunk_sum_add(seq![take as usize], chunk_plan_spec(capacity, channels, (len - take) as nat));
        assert(seq![take as usize].drop_last() =~= Seq::<usize>::empty());
        assert(chunk_sum(Seq::<usize>::empty()) == 0);
        assert(chunk_sum(seq![take as usize]) == take);
    }
}

/// Cuts a block of `len` samples into the pool's buffers of `capacity` samples, a device frame
/// being `channels` samples wide.
pub fn chunk_plan(capacity: usize, channels: usize, len: usize) -> (chunks: Vec<usize>)
    ensures
        chunks@ == chunk_plan_spec(capacity, channels, len as nat),
{
    let mut chunks: Vec<usize> = Vec::new();
    let mut remaining = len;
    while remaining > 0
        invariant
            remaining <= len,
            chunks@ + chunk_plan_spec(capacity, channels, remaining as nat) == chunk_plan_spec(
                capacity,
                channels,
                len as nat,
            ),
        decreases remaining,
    {
        let (take, _frames) = chunk_samples(capacity, channels, remaining);
        let ghost tail = chunk_plan_spec(capacity, channels, (remaining - take) as nat);
        assert(chunk_plan_spec(capacity, channels, remaining as nat) == seq![take] + tail);
        chunks.push(take);
        assert(chunks@ + tail =~= (chunks@.drop_last() + (seq![take] + tail)));
        remaining = remaining - take;
    }
    assert(chunks@ + chunk_plan_spec(capacity, channels, 0) =~= chunks@);
    chunks
}

/// The rates advertised by the first `n` input configuration ranges: each range's two ends.
pub open spec fn input_rates(configs: Seq<ConfigRange>, n: nat) -> Seq<u32>
    decreases n,
{
    if n == 0 || n > configs.len() {
        Seq::empty()
    } else {
        add_absent(input_rates(configs, (n - 1) as nat), seq![configs[n - 1].min_rate, configs[n - 1].max_rate])
    }
}

/// Describes one input device from the configuration ranges it advertises: its rates are each
/// range's two ends, deduplicated and in ascending order, and its channel count the widest.
pub fn describe_input_device(name: String, is_default: bool, configs: &Vec<ConfigRange>) -> (info:
    AudioDeviceInfo)
    ensures
        info.name == name,
        info.is_default == is_default,
        info.max_channels == crate::device::widest(configs@, configs@.len()),
        forall|i: int, j: int|
            0 <= i < j < info.sample_rates@.len() ==> info.sample_rates@[i]
                < info.sample_rates@[j],
        forall|x: u32|
            info.sample_rates@.contains(x) <==> input_rates(configs@, configs@.len()).contains(x),
{
    let mut rates: Vec<u32> = Vec::new();
    let mut max_channels: u16 = 0;
    let mut i: usize = 0;
    proof {
        assert(Seq::<u32>::empty().no_duplicates());
    }
    while i < configs.len()
        invariant
            i <= configs.len(),
            rates@ == input_rates(configs@, i as nat),
            rates@.no_duplicates(),
            max_channels == crate::device::widest(configs@, i as nat),
        decreases configs.len() - i,
    {
        let config = configs[i];
        if config.channels > max_channels {
            max_channels = config.channels;
        }
        proof {
            crate::device::lemma_add_absent(rates@, seq![config.min_rate, config.max_rate]);
            reveal_with_fuel(add_absent, 3);
            assert(seq![config.min_rate, config.max_rate].drop_last() =~= seq![config.min_rate]);
            assert(seq![config.min_rate].drop_last() =~= Seq::<u32>::empty());
        }
        crate::device::push_absent(&mut rates, config.min_rate);
        crate::device::push_absent(&mut rates, config.max_rate);
        i = i + 1;
    }
    let sample_rates = crate::device::sort_rates(rates);
    AudioDeviceInfo { name, is_default, sample_rates, max_channels }
}

/// What the pool answers when the callback asks to hand it one buffer's worth of a block.
#[derive(Copy, Clone, Debug, PartialEq, Eq)]
pub enum PoolAnswer {
    /// No empty buffer was left: the reader has not run for a while, and the rest of the block
    /// is dropped.
    NoBuffer,
    /// The buffer went to the reader.
    Sent,
    /// A buffer was filled but the reader's queue refused it, so its samples are dropped.
    Refused,
}

/// Samples in one frame of a device `channels` wide; a device that reports none counts as one.
pub open spec fn frame_width(channels: usize) -> int {
    if channels == 0 {
        1
    } else {
        channels as int
    }
}

/// Samples one pooled buffer of `capacity` takes of the `len` samples left of a block, as
/// [`chunk_samples`] takes them.
pub open spec fn take_of(capacity: usize, channels: usize, len: nat) -> int {
    let width = frame_width(channels);
    let whole = capacity - (capacity as int) % width;
    let room = if whole >= 1 {
        whole
    } else {
        1
    };
    if len < room {
        len as int
    } else {
        room
    }
}

/// The frames a take gains and the samples it loses when a block of `len` samples is pushed and
/// the pool answers each buffer's worth in turn with `answers` (running out of answers meaning
/// running out of buffers): a sent buffer counts its whole frames, a refused one drops its
/// samples, and once no buffer is left the rest of the block is dropped.
pub open spec fn push_counts_spec(capacity: usize, channels: usize, len: nat, answers: Seq<PoolAnswer>) -> (
    nat,
    nat,
)
    decreases len,
{
    if len == 0 {
        (0, 0)
    } else if answers.len() == 0 || answers[0] is NoBuffer {
        (0, len)
    } else {
        let take = take_of(capacity, channels, len);
        let rest = push_counts_spec(capacity, channels, (len - take) as nat, answers.drop_first());
        if answers[0] is Sent {
            ((rest.0 + take / frame_width(channels)) as nat, rest.1)
        } else {
            (rest.0, (rest.1 + take) as nat)
        }
    }
}

/// Counts what pushing a block of `len` samples adds to the take's frames and to its dropped
/// samples, given what the pool answered for each buffer's worth of it.
pub fn push_counts(capacity: usize, channels: usize, len: usize, answers: &Vec<PoolAnswer>) -> (counts: (
    u64,
    u64,
))
    ensures
        counts.0 == push_counts_spec(capacity, channels, len as nat, answers@).0,
        counts.1 == push_counts_spec(capacity, channels, len as nat, answers@).1,
{
    let mut remaining = len;
    let mut k: usize = 0;
    let mut frames: u64 = 0;
    let mut dropped: u64 = 0;
    assert(answers@.skip(0) =~= answers@);
    while remaining > 0
        invariant
            remaining <= len,
            k <= answers@.len(),
            frames + dropped + remaining <= len,
            frames + push_counts_spec(capacity, channels, remaining as nat, answers@.skip(k as int)).0
                == push_counts_spec(capacity, channels, len as nat, answers@).0,
            dropped + push_counts_spec(capacity, channels, remaining as nat, answers@.skip(k as int)).1
                == push_counts_spec(capacity, channels, len as nat, answers@).1,
        decreases remaining,
    {
        let ghost rest_answers = answers@.skip(k as int);
        if k == answers.len() {
            dropped = dropped + remaining as u64;
            remaining = 0;
        } else {
            match answers[k] {
                PoolAnswer::NoBuffer => {
                    dropped = dropped + remaining as u64;
                    remaining = 0;
                },
                answer => {
                    let (take, whole_frames) = chunk_samples(capacity, channels, remaining);
                    proof {
                        assert(take == take_of(capacity, channels, remaining as nat));
                        assert(rest_answers[0] == answer);
                        assert(rest_answers.drop_first() =~= answers@.skip(k + 1));
                        assert(whole_frames <= take) by (nonlinear_arith)
                            requires
                                whole_frames == (take as int) / frame_width(channels),
                                frame_width(channels) >= 1,
                                take >= 0,
                        ;
                    }
                    match answer {
                        PoolAnswer::Sent => {
                            frames = frames + whole_frames;
                        },
                        _ => {
                            dropped = dropped + take as u64;
                        },
                    }
                    remaining = remaining - take;
                    k = k + 1;
                },
            }
        }
    }
    (frames, dropped)
}

/// Pushing a block of whole frames through buffers that each hold at least one frame loses track
/// of nothing: the frames the take gains, as samples, and the samples it drops add up to the
/// block, whatever the pool answers.
pub proof fn lemma_push_accounts_every_sample(
    capacity: usize,
    channels: usize,
    len: nat,
    answers: Seq<PoolAnswer>,
)
    requires
        capacity >= frame_width(channels),
        (len as int) % frame_width(channels) == 0,
    ensures
        push_counts_spec(capacity, channels, len, answers).0 * frame_width(channels)
            + push_counts_spec(capacity, channels, len, answers).1 == len,
    decreases len,
{
    let width = frame_width(channels);
    if len > 0 && answers.len() > 0 && !(answers[0] is NoBuffer) {
        let take = take_of(capacity, channels, len);
        assert(0 <= (capacity as int) % width < width);
        let room = capacity - (capacity as int) % width;
        assert(room >= 1);
        assert(take == if len < room {
            len as int
        } else {
            room
        });
        lemma_chunks_are_whole_frames(capacity, width, len as int);
        assert(((len - take) as nat) as int % width == 0);
        lemma_push_accounts_every_sample(capacity, channels, (len - take) as nat, answers.drop_first());
        assert((take / width) * width == take) by (nonlinear_arith)
            requires
                take % width == 0,
                width >= 1,
                take >= 0,
        ;
        let rest = push_counts_spec(capacity, channels, (len - take) as nat, answers.drop_first());
        assert(rest.0 * width + rest.1 == len - take);
        assert((rest.0 + take / width) * width == rest.0 * width + (take / width) * width) by (nonlinear_arith);
    }
}

} // verus!
