//! What the output device is asked for, and what is made of what it says it can do.
//!
//! Talking to the audio server is the application's business; what it hands over here is plain
//! numbers — the configuration ranges a device advertises, its buffer-size range — and what comes
//! back is the device description a settings panel shows and the block size the engine runs at.
use vstd::prelude::*;

verus! {

/// Block size used when the backend will not say what it prefers.
pub const DEFAULT_MAX_BLOCK: usize = 2048;

/// Smallest command queue that still absorbs one UI frame's worth of fader moves.
pub const MIN_COMMAND_CAPACITY: usize = 16;

/// Conventional rates worth offering when a backend reports one continuous range.
pub open spec fn standard_sample_rates() -> Seq<u32> {
    seq![8000u32, 22050u32, 44100u32, 48000u32, 88200u32, 96000u32, 176400u32, 192000u32]
}

/// The conventional rates, for executable code.
fn standard_rates() -> (rates: Vec<u32>)
    ensures
        rates@ == standard_sample_rates(),
{
    let rates = vec![8000u32, 22050u32, 44100u32, 48000u32, 88200u32, 96000u32, 176400u32, 192000u32];
    assert(rates@ =~= standard_sample_rates());
    rates
}

/// `rates` with every candidate it does not already hold appended, in candidate order.
pub open spec fn add_absent(rates: Seq<u32>, candidates: Seq<u32>) -> Seq<u32>
    decreases candidates.len(),
{
    if candidates.len() == 0 {
        rates
    } else {
        let before = add_absent(rates, candidates.drop_last());
        if before.contains(candidates.last()) {
            before
        } else {
            before.push(candidates.last())
        }
    }
}

/// The rates a range from `min` to `max` offers: its two ends, then each conventional rate
/// inside it.
pub open spec fn range_candidates(min: u32, max: u32) -> Seq<u32> {
    seq![min, max] + rates_within(standard_sample_rates(), min, max)
}

/// The rates of `s` from `min` to `max`, in the order `s` holds them.
pub open spec fn rates_within(s: Seq<u32>, min: u32, max: u32) -> Seq<u32>
    decreases s.len(),
{
    if s.len() == 0 {
        Seq::empty()
    } else {
        let rest = rates_within(s.drop_last(), min, max);
        if min <= s.last() && s.last() <= max {
            rest.push(s.last())
        } else {
            rest
        }
    }
}

/// Appends `rate` unless `rates` already holds it.
pub(crate) fn push_absent(rates: &mut Vec<u32>, rate: u32)
    ensures
        final(rates)@ == if old(rates)@.contains(rate) {
            old(rates)@
        } else {
            old(rates)@.push(rate)
        },
{
    let mut i: usize = 0;
    while i < rates.len()
        invariant
            i <= rates.len(),
            rates@ == old(rates)@,
            forall|k: int| 0 <= k < i ==> rates@[k] != rate,
        decreases rates.len() - i,
    {
        if rates[i] == rate {
            assert(rates@[i as int] == rate);
            return;
        }
        i = i + 1;
    }
    rates.push(rate);
}

/// Adds the rates a continuous range offers: its two ends and every conventional rate inside
/// it, each only if `rates` does not hold it yet.
pub fn add_sample_rate_range(rates: &mut Vec<u32>, min: u32, max: u32)
    ensures
        final(rates)@ == add_absent(old(rates)@, range_candidates(min, max)),
{
    let standard = standard_rates();
    let mut candidates: Vec<u32> = Vec::new();
    candidates.push(min);
    candidates.push(max);
    let mut i: usize = 0;
    while i < standard.len()
        invariant
            i <= standard.len(),
            standard@ == standard_sample_rates(),
            candidates@ == seq![min, max] + rates_within(standard@.subrange(0, i as int), min, max),
        decreases standard.len() - i,
    {
        proof {
            assert(standard@.subrange(0, i + 1).drop_last() =~= standard@.subrange(0, i as int));
        }
        let rate = standard[i];
        if min <= rate && rate <= max {
            candidates.push(rate);
            assert(candidates@ =~= seq![min, max] + rates_within(standard@.subrange(0, i + 1), min, max));
        } else {
            assert(candidates@ =~= seq![min, max] + rates_within(standard@.subrange(0, i + 1), min, max));
        }
        i = i + 1;
    }
    assert(standard@.subrange(0, standard.len() as int) =~= standard@);
    assert(candidates@ =~= range_candidates(min, max));
    let mut j: usize = 0;
    while j < candidates.len()
        invariant
            j <= candidates.len(),
            rates@ == add_absent(old(rates)@, candidates@.subrange(0, j as int)),
        decreases candidates.len() - j,
    {
        assert(candidates@.subrange(0, j + 1).drop_last() =~= candidates@.subrange(0, j as int));
        push_absent(rates, candidates[j]);
        j = j + 1;
    }
    assert(candidates@.subrange(0, candidates.len() as int) =~= candidates@);
}

/// Adding candidates never brings a duplicate in, keeps what was there in front, and leaves
/// every candidate held.
pub proof fn lemma_add_absent(rates: Seq<u32>, candidates: Seq<u32>)
    requires
        rates.no_duplicates(),
    ensures
        add_absent(rates, candidates).no_duplicates(),
        add_absent(rates, candidates).len() >= rates.len(),
        add_absent(rates, candidates).subrange(0, rates.len() as int) == rates,
        forall|i: int| 0 <= i < candidates.len() ==> add_absent(rates, candidates).contains(
            #[trigger] candidates[i],
        ),
        forall|x: u32| #[trigger] add_absent(rates, candidates).contains(x) ==> rates.contains(x)
            || candidates.contains(x),
    decreases candidates.len(),
{
    if candidates.len() > 0 {
        let rest = candidates.drop_last();
        lemma_add_absent(rates, rest);
        let before = add_absent(rates, rest);
        let after = add_absent(rates, candidates);
        assert forall|i: int| 0 <= i < candidates.len() implies after.contains(
            #[trigger] candidates[i],
        ) by {
            if i < candidates.len() - 1 {
                assert(candidates[i] == rest[i]);
                assert(before.contains(rest[i]));
                if !before.contains(candidates.last()) {
                    let k = choose|k: int| 0 <= k < before.len() && before[k] == rest[i];
                    assert(after[k] == before[k]);
                }
            } else if !before.contains(candidates.last()) {
                assert(after[before.len() as int] == candidates.last());
            }
        }
        assert forall|x: u32| #[trigger] after.contains(x) implies rates.contains(x)
            || candidates.contains(x) by {
            if before.contains(x) {
                if !rates.contains(x) {
                    let k = choose|k: int| 0 <= k < rest.len() && rest[k] == x;
                    assert(candidates[k] == x);
                }
            } else {
                assert(x == candidates.last());
                assert(candidates[candidates.len() - 1] == x);
            }
        }
        if !before.contains(candidates.last()) {
            assert(after.subrange(0, rates.len() as int) =~= before.subrange(0, rates.len() as int));
        }
    }
}

/// One configuration range a device advertises, as plain numbers.
#[derive(Copy, Clone, Debug, PartialEq, Eq, Structural)]
pub struct ConfigRange {
    /// Channels of the configuration.
    pub channels: u16,
    /// Sample format of the configuration.
    pub format: SampleFormat,
    /// Lowest rate, in hertz.
    pub min_rate: u32,
    /// Highest rate, in hertz.
    pub max_rate: u32,
}

/// The sample formats a device can speak.
#[derive(Copy, Clone, Debug, PartialEq, Eq, Structural)]
pub enum SampleFormat {
    /// Signed 8-bit.
    I8,
    /// Signed 16-bit.
    I16,
    /// Signed 24-bit.
    I24,
    /// Signed 32-bit.
    I32,
    /// Signed 64-bit.
    I64,
    /// Unsigned 8-bit.
    U8,
    /// Unsigned 16-bit.
    U16,
    /// Unsigned 24-bit.
    U24,
    /// Unsigned 32-bit.
    U32,
    /// Unsigned 64-bit.
    U64,
    /// 32-bit floating point.
    F32,
    /// 64-bit floating point.
    F64,
    /// One-bit DSD in an 8-bit container.
    DsdU8,
    /// One-bit DSD in a 16-bit container.
    DsdU16,
    /// One-bit DSD in a 32-bit container.
    DsdU32,
    /// A format the backend names that this list does not; its range still counts.
    Unrecognised,
}

/// An output device the host could open, and what it can do.
#[derive(Clone, Debug, PartialEq, Eq)]
pub struct AudioDeviceInfo {
    /// Name, which is also how [`AudioSettings::device`] refers to it.
    pub name: String,
    /// Whether this is the system's default output.
    pub is_default: bool,
    /// Sample rates the device advertises, ascending and deduplicated.
    pub sample_rates: Vec<u32>,
    /// Highest channel count the device advertises.
    pub max_channels: u16,
}

/// The rates advertised by the first `n` configuration ranges, gathered range by range.
pub open spec fn advertised_rates(configs: Seq<ConfigRange>, n: nat) -> Seq<u32>
    decreases n,
{
    if n == 0 || n > configs.len() {
        Seq::empty()
    } else {
        add_absent(
            advertised_rates(configs, (n - 1) as nat),
            range_candidates(configs[n - 1].min_rate, configs[n - 1].max_rate),
        )
    }
}

/// The widest channel count among the first `n` configuration ranges, or none.
pub open spec fn widest(configs: Seq<ConfigRange>, n: nat) -> u16
    decreases n,
{
    if n == 0 || n > configs.len() {
        0
    } else {
        let rest = widest(configs, (n - 1) as nat);
        if rest >= configs[n - 1].channels {
            rest
        } else {
            configs[n - 1].channels
        }
    }
}

/// Sorts distinct rates into ascending order.
pub(crate) fn sort_rates(rates: Vec<u32>) -> (sorted: Vec<u32>)
    requires
        rates@.no_duplicates(),
    ensures
        sorted@.len() == rates@.len(),
        forall|i: int, j: int| 0 <= i < j < sorted@.len() ==> sorted@[i] < sorted@[j],
        forall|x: u32| sorted@.contains(x) <==> rates@.contains(x),
{
    let mut sorted: Vec<u32> = Vec::new();
    let mut i: usize = 0;
    while i < rates.len()
        invariant
            i <= rates.len(),
            rates@.no_duplicates(),
            sorted@.len() == i,
            forall|a: int, b: int| 0 <= a < b < sorted@.len() ==> sorted@[a] < sorted@[b],
            forall|x: u32| sorted@.contains(x) <==> rates@.subrange(0, i as int).contains(x),
        decreases rates.len() - i,
    {
        let r = rates[i];
        proof {
            assert(!rates@.subrange(0, i as int).contains(r)) by {
                if rates@.subrange(0, i as int).contains(r) {
                    let k = choose|k: int| 0 <= k < i && rates@.subrange(0, i as int)[k] == r;
                    assert(rates@[k] == rates@[i as int]);
                }
            }
        }
        let mut p: usize = sorted.len();
        while p > 0 && sorted[p - 1] > r
            invariant
                p <= sorted@.len(),
                forall|k: int| p <= k < sorted@.len() ==> sorted@[k] > r,
            decreases p,
        {
            p = p - 1;
        }
        let ghost before = sorted@;
        proof {
            assert forall|k: int| 0 <= k < p implies before[k] < r by {
                assert(before[p - 1] <= r);
                if before[p - 1] == r {
                    assert(before.contains(r));
                }
                if k < p - 1 {
                    assert(before[k] < before[p - 1]);
                }
            }
        }
        sorted.insert(p, r);
        proof {
            assert forall|a: int, b: int| 0 <= a < b < sorted@.len() implies sorted@[a]
                < sorted@[b] by {
                if b < p {
                    assert(sorted@[a] == before[a] && sorted@[b] == before[b]);
                } else if b == p {
                    assert(sorted@[a] == before[a]);
                } else if a < p {
                    assert(sorted@[a] == before[a] && sorted@[b] == before[b - 1]);
                } else if a == p {
                    assert(sorted@[b] == before[b - 1]);
                } else {
                    assert(sorted@[a] == before[a - 1] && sorted@[b] == before[b - 1]);
                }
            }
            assert(rates@.subrange(0, i + 1) =~= rates@.subrange(0, i as int).push(r));
            assert forall|x: u32| sorted@.contains(x) <==> rates@.subrange(0, i + 1).contains(x) by {
                if sorted@.contains(x) {
                    let k = choose|k: int| 0 <= k < sorted@.len() && sorted@[k] == x;
                    if k < p {
                        assert(before[k] == x);
                        assert(before.contains(x));
                    } else if k > p {
                        assert(before[k - 1] == x);
                        assert(before.contains(x));
                    }
                    if x != r {
                        assert(rates@.subrange(0, i as int).contains(x));
                        let m = choose|m: int| 0 <= m < i && rates@.subrange(0, i as int)[m] == x;
                        assert(rates@.subrange(0, i + 1)[m] == x);
                    } else {
                        assert(rates@.subrange(0, i + 1)[i as int] == x);
                    }
                }
                if rates@.subrange(0, i + 1).contains(x) {
                    if x == r {
                        assert(sorted@[p as int] == r);
                    } else {
                        let grown = rates@.subrange(0, i + 1);
                        let m = choose|m: int| 0 <= m < grown.len() && grown[m] == x;
                        assert(m < i);
                        assert(rates@.subrange(0, i as int)[m] == x);
                        assert(before.contains(x));
                        let k = choose|k: int| 0 <= k < before.len() && before[k] == x;
                        if k < p {
                            assert(sorted@[k] == x);
                        } else {
                            assert(sorted@[k + 1] == x);
                        }
                    }
                }
            }
        }
        i = i + 1;
    }
    assert(rates@.subrange(0, rates.len() as int) =~= rates@);
    sorted
}

/// Whether the device named `name` is the host's default, which the host names `default_name`
/// (if it has one). Matched by name, the one handle that is stable across runs.
pub fn is_default_device(name: &String, default_name: &Option<String>) -> (is_default: bool)
    ensures
        is_default == match default_name {
            Some(default) => default@ == name@,
            None => false,
        },
{
    match default_name {
        Some(default) => default.eq(name),
        None => false,
    }
}

/// Describes one output device from the configuration ranges it advertises.
///
/// The rates are every range's ends and the conventional rates inside it, deduplicated and in
/// ascending order; the channel count is the widest any range offers.
pub fn describe_device(name: String, is_default: bool, configs: &Vec<ConfigRange>) -> (info:
    AudioDeviceInfo)
    ensures
        info.name == name,
        info.is_default == is_default,
        info.max_channels == widest(configs@, configs@.len()),
        forall|i: int, j: int|
            0 <= i < j < info.sample_rates@.len() ==> info.sample_rates@[i]
                < info.sample_rates@[j],
        forall|x: u32|
            info.sample_rates@.contains(x) <==> advertised_rates(configs@, configs@.len()).contains(
                x,
            ),
{
    let mut rates: Vec<u32> = Vec::new();
    let mut max_channels: u16 = 0;
    let mut i: usize = 0;
    proof {
        assert(Seq::<u32>::empty().no_duplicates());
    }
    while i < configs.len()
        invariant
            i <= configs.len(),
            rates@ == advertised_rates(configs@, i as nat),
            rates@.no_duplicates(),
            max_channels == widest(configs@, i as nat),
        decreases configs.len() - i,
    {
        let config = configs[i];
        if config.channels > max_channels {
            max_channels = config.channels;
        }
        proof {
            lemma_add_absent(rates@, range_candidates(config.min_rate, config.max_rate));
        }
        add_sample_rate_range(&mut rates, config.min_rate, config.max_rate);
        i = i + 1;
    }
    let sample_rates = sort_rates(rates);
    AudioDeviceInfo { name, is_default, sample_rates, max_channels }
}

/// Whether one of a device's configuration ranges plays `rate` with exactly these channels and
/// this format.
pub fn supports_rate(configs: &Vec<ConfigRange>, channels: u16, format: SampleFormat, rate: u32) -> (supported: bool)
    ensures
        supported == exists|i: int|
            0 <= i < configs@.len() && #[trigger] configs@[i].channels == channels
                && configs@[i].format == format && configs@[i].min_rate <= rate
                && rate <= configs@[i].max_rate,
{
    let mut i: usize = 0;
    while i < configs.len()
        invariant
            i <= configs.len(),
            forall|k: int|
                0 <= k < i ==> !(#[trigger] configs@[k].channels == channels && configs@[k].format
                    == format && configs@[k].min_rate <= rate && rate <= configs@[k].max_rate),
        decreases configs.len() - i,
    {
        let config = configs[i];
        if config.channels == channels && config.format == format && config.min_rate <= rate
            && rate <= config.max_rate {
            return true;
        }
        i = i + 1;
    }
    false
}

/// The callback size to ask the device for, given what the caller would like and the range the
/// device advertises (`0, 0` when it does not say).
///
/// Clamped into the range, with its lower bound raised to one and never allowed past its upper
/// bound — a degenerate range must not be able to make a clamp panic. An unknown range allows
/// anything from one frame up to [`DEFAULT_MAX_BLOCK`].
pub fn preferred_block_size(frames: u32, min_buffer: u32, max_buffer: u32) -> (block: u32)
    ensures
        block == preferred_block_size_spec(frames, min_buffer, max_buffer),
        1 <= block,
        max_buffer > 0 ==> block <= max_buffer,
        max_buffer == 0 ==> block <= DEFAULT_MAX_BLOCK,
{
    if max_buffer > 0 {
        let low = if min_buffer < 1 {
            1
        } else {
            min_buffer
        };
        let lowest = if low > max_buffer {
            max_buffer
        } else {
            low
        };
        if frames < lowest {
            lowest
        } else if frames > max_buffer {
            max_buffer
        } else {
            frames
        }
    } else {
        let at_least = if frames < 1 {
            1
        } else {
            frames
        };
        if at_least > DEFAULT_MAX_BLOCK as u32 {
            DEFAULT_MAX_BLOCK as u32
        } else {
            at_least
        }
    }
}

/// The largest block the engine renders at once for an output stream.
///
/// A requested callback size is taken through [`preferred_block_size`]; without one, the
/// device's own upper bound up to [`DEFAULT_MAX_BLOCK`], or that default when it says nothing.
/// Never less than one frame.
pub fn output_max_block(block_frames: Option<u32>, min_buffer: u32, max_buffer: u32) -> (block:
    usize)
    ensures
        block == match block_frames {
            Some(frames) => {
                let b = preferred_block_size_spec(frames, min_buffer, max_buffer);
                b as usize
            },
            None => if max_buffer > 0 {
                if max_buffer < DEFAULT_MAX_BLOCK {
                    max_buffer as usize
                } else {
                    DEFAULT_MAX_BLOCK
                }
            } else {
                DEFAULT_MAX_BLOCK
            },
        },
        1 <= block,
{
    let block = match block_frames {
        Some(frames) => preferred_block_size(frames, min_buffer, max_buffer) as usize,
        None => {
            if max_buffer > 0 {
                if (max_buffer as usize) < DEFAULT_MAX_BLOCK {
                    max_buffer as usize
                } else {
                    DEFAULT_MAX_BLOCK
                }
            } else {
                DEFAULT_MAX_BLOCK
            }
        },
    };
    block
}

/// What [`preferred_block_size`] returns.
pub open spec fn preferred_block_size_spec(frames: u32, min_buffer: u32, max_buffer: u32) -> u32 {
    if max_buffer > 0 {
        let lowest = if min_buffer < 1 {
            1
        } else if min_buffer > max_buffer {
            max_buffer
        } else {
            min_buffer
        };
        if frames < lowest {
            lowest
        } else if frames > max_buffer {
            max_buffer
        } else {
            frames
        }
    } else if frames < 1 {
        1
    } else if frames > DEFAULT_MAX_BLOCK {
        DEFAULT_MAX_BLOCK as u32
    } else {
        frames
    }
}

/// The callback size to ask an input device for: clamped into its advertised range exactly as
/// an output's is, and anything from one frame up when it does not say.
pub fn input_block_size(frames: u32, min_buffer: u32, max_buffer: u32) -> (block: u32)
    ensures
        block == if max_buffer > 0 {
            preferred_block_size_spec(frames, min_buffer, max_buffer)
        } else if frames < 1 {
            1
        } else {
            frames
        },
        1 <= block,
{
    if max_buffer > 0 {
        preferred_block_size(frames, min_buffer, max_buffer)
    } else if frames < 1 {
        1
    } else {
        frames
    }
}

/// How many commands the queue holds: what the settings ask for, but never fewer than
/// [`MIN_COMMAND_CAPACITY`].
pub fn command_queue_capacity(requested: usize) -> (capacity: usize)
    ensures
        capacity == if requested < MIN_COMMAND_CAPACITY {
            MIN_COMMAND_CAPACITY
        } else {
            requested
        },
{
    if requested < MIN_COMMAND_CAPACITY {
        MIN_COMMAND_CAPACITY
    } else {
        requested
    }
}

/// What to ask the audio backend for.
#[derive(Clone, Debug, PartialEq)]
pub struct AudioSettings {
    /// Backend name, such as `ASIO` or `WASAPI`. `None` uses the platform default.
    pub host: Option<String>,
    /// Name of the output device to open. `None` uses the system default.
    pub device: Option<String>,
    /// Preferred sample rate in Hz. Ignored when the device cannot do it.
    pub sample_rate: Option<u32>,
    /// Preferred callback size in frames. Ignored when the device cannot do it.
    pub block_frames: Option<u32>,
    /// How many commands may be queued before sending starts refusing.
    pub command_capacity: usize,
    /// How many track meters to allocate. Tracks past this many are simply not metered.
    pub meter_tracks: usize,
}

impl Default for AudioSettings {
    fn default() -> (settings: Self)
        ensures
            settings.host is None,
            settings.device is None,
            settings.sample_rate is None,
            settings.block_frames is None,
            settings.command_capacity == 64,
            settings.meter_tracks == 128,
    {
        AudioSettings {
            host: None,
            device: None,
            sample_rate: None,
            block_frames: None,
            command_capacity: 64,
            meter_tracks: 128,
        }
    }
}

/// Runs clean-up only once the stream it follows has been dropped.
///
/// The stream is taken out and dropped first — which for a live audio stream joins its
/// callback — and only then does `cleanup` run, so the clean-up can never compete with a
/// callback that is still running.
pub fn after_stream_stopped<T, R, F: FnOnce() -> R>(stream: &mut Option<T>, cleanup: F) -> (result: R)
    requires
        cleanup.requires(()),
    ensures
        (*final(stream)) is None,
        cleanup.ensures((), result),
{
    let taken = stream.take();
    drop_stream(taken);
    cleanup()
}

/// Drops a stream, ending it before anything after this call runs.
fn drop_stream<T>(stream: Option<T>) {
}

} // verus!
