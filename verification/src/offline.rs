//! The geometry of a faster-than-realtime render: how long it runs, what it throws away at the
//! front, where the transport stops, and how the rendered blocks are cut into the output.
//!
//! Export runs the same block renderer the audio callback does, block by block. Everything here
//! is the bookkeeping around those blocks, which is what decides whether an exported file is
//! exactly as long as the range asked for and starts on the timeline where the range does.
use vstd::prelude::*;
use crate::error::EngineError;

verus! {

/// Channels every render produces.
pub const RENDER_CHANNELS: usize = 2;

/// Bytes of one stored sample (a 32-bit float).
pub const SAMPLE_BYTES: usize = 4;

/// Longest span an offline render will attempt, in frames: twenty-four hours at 192 kHz.
///
/// A sanity bound, not a quota: nothing a user can arrange comes near it, so anything that does
/// is a corrupt figure, and refusing it keeps the export path away from the allocator.
pub const MAX_RENDER_FRAMES: u64 = 16_588_800_000;

/// Raw sample storage a complete in-memory render may retain: 512 MiB.
pub const MAX_BUFFERED_RENDER_BYTES: usize = 536_870_912;

/// Largest block whose event offsets and scratch allocation remain practical and representable.
pub const MAX_BLOCK_FRAMES: usize = 1_048_576;

/// Bytes a complete stereo render of `frames` frames stores, counted without overflow.
pub open spec fn render_bytes(frames: usize) -> int {
    frames * RENDER_CHANNELS * SAMPLE_BYTES
}

/// The raw sample bytes a complete in-memory render of `frames` frames needs, refused when it
/// is over the in-memory budget (a count that does not even fit in `usize` is over it too).
pub fn buffered_render_bytes(frames: usize) -> (bytes: Result<usize, EngineError>)
    ensures
        render_bytes(frames) <= MAX_BUFFERED_RENDER_BYTES ==> bytes == Ok::<usize, EngineError>(
            render_bytes(frames) as usize,
        ),
        render_bytes(frames) > MAX_BUFFERED_RENDER_BYTES ==> bytes == Err::<usize, EngineError>(
            EngineError::RenderBufferTooLarge {
                frames,
                channels: RENDER_CHANNELS,
                limit_bytes: MAX_BUFFERED_RENDER_BYTES,
            },
        ),
{
    let too_large = EngineError::RenderBufferTooLarge {
        frames,
        channels: RENDER_CHANNELS,
        limit_bytes: MAX_BUFFERED_RENDER_BYTES,
    };
    let samples = match frames.checked_mul(RENDER_CHANNELS) {
        Some(samples) => samples,
        None => {
            assert(render_bytes(frames) > usize::MAX) by (nonlinear_arith)
                requires
                    frames * RENDER_CHANNELS > usize::MAX,
                    render_bytes(frames) == frames * RENDER_CHANNELS * SAMPLE_BYTES,
            ;
            return Err(too_large);
        },
    };
    let bytes = match samples.checked_mul(SAMPLE_BYTES) {
        Some(bytes) => bytes,
        None => return Err(too_large),
    };
    if bytes > MAX_BUFFERED_RENDER_BYTES {
        return Err(too_large);
    }
    Ok(bytes)
}

/// A block size brought into the range the renderer can prepare for.
pub open spec fn clamp_block(block_frames: usize) -> usize {
    if block_frames < 1 {
        1
    } else if block_frames > MAX_BLOCK_FRAMES {
        MAX_BLOCK_FRAMES
    } else {
        block_frames
    }
}

/// Brings a processing block size into `1..=MAX_BLOCK_FRAMES`.
pub fn clamp_block_frames(block_frames: usize) -> (clamped: usize)
    ensures
        clamped == clamp_block(block_frames),
        1 <= clamped <= MAX_BLOCK_FRAMES,
{
    if block_frames < 1 {
        1
    } else if block_frames > MAX_BLOCK_FRAMES {
        MAX_BLOCK_FRAMES
    } else {
        block_frames
    }
}

/// How much of a project to render, and how.
#[derive(Clone, Debug, PartialEq)]
pub struct OfflineOptions {
    /// First frame to render.
    pub start_frames: u64,
    /// One past the last frame to render. `None` means the end of the arrangement.
    pub end_frames: Option<u64>,
    /// Frames per processing block. Larger blocks export faster; the output is identical.
    pub block_frames: usize,
    /// Whether to keep rendering past the end for the longest effect tail in the graph.
    pub include_tail: bool,
    /// Capture one cycle after warming up instruments and effects for at least one cycle and the
    /// graph's reported tail. No tail is appended to the output.
    pub looping: bool,
    /// Rate to render at, as the bit pattern of a 64-bit float. `None` uses the project's rate.
    pub sample_rate: Option<u64>,
}

impl Default for OfflineOptions {
    fn default() -> (options: Self)
        ensures
            options.start_frames == 0,
            options.end_frames is None,
            options.block_frames == 1024,
            options.include_tail,
            !options.looping,
            options.sample_rate is None,
    {
        OfflineOptions {
            start_frames: 0,
            end_frames: None,
            block_frames: 1024,
            include_tail: true,
            looping: false,
            sample_rate: None,
        }
    }
}

impl OfflineOptions {
    /// Options rendering the whole arrangement plus its tails.
    pub fn whole_project() -> (options: Self)
        ensures
            options.start_frames == 0,
            options.end_frames is None,
            options.block_frames == 1024,
            options.include_tail,
            !options.looping,
            options.sample_rate is None,
    {
        OfflineOptions::default()
    }

    /// Restricts the render to a frame range.
    pub fn with_range(self, start_frames: u64, end_frames: u64) -> (options: Self)
        ensures
            options == (OfflineOptions {
                start_frames,
                end_frames: Some(end_frames),
                ..self
            }),
    {
        OfflineOptions { start_frames, end_frames: Some(end_frames), ..self }
    }

    /// Sets the processing block size, clamped to what a render can prepare for.
    pub fn with_block_frames(self, block_frames: usize) -> (options: Self)
        ensures
            options == (OfflineOptions { block_frames: clamp_block(block_frames), ..self }),
    {
        let block_frames = clamp_block_frames(block_frames);
        OfflineOptions { block_frames, ..self }
    }
}

/// The geometry of one render pass, worked out once and played any number of times.
#[derive(Copy, Clone, Debug, PartialEq, Eq)]
pub struct RenderGeometry {
    /// Frames per processing block.
    pub block_frames: usize,
    /// Timeline frame the transport starts from.
    pub start_frames: u64,
    /// Frames the output holds: the range, plus the tail when one was asked for.
    pub total: usize,
    /// Frames to render: `total` plus the lead-in that is thrown away.
    pub end: usize,
    /// Frames of cycle warm-up and delay-compensation lead-in to discard.
    pub latency: usize,
    /// Whether the render has an explicit end to stop the transport at.
    pub ranged: bool,
    /// Frames of the output the transport is rolling for; the rest is tail.
    pub performed: usize,
    /// Whether the range is rendered as a cycle.
    pub looping: bool,
}

/// The frames a cycle export warms up for: enough whole cycles to cover both one cycle and the
/// graph's tail.
pub open spec fn warmup_frames(graph_tail: int, span: int) -> int {
    let longest = if graph_tail > span {
        graph_tail
    } else {
        span
    };
    let cycles = longest / span + if longest % span != 0 {
        1int
    } else {
        0int
    };
    cycles * span
}

/// What [`plan_render`] answers: the refusal for a backwards range or a span too long to
/// attempt, else the geometry.
pub open spec fn render_plan(
    options: OfflineOptions,
    arrangement_end: u64,
    graph_tail: usize,
    graph_latency: usize,
) -> Result<RenderGeometry, EngineError> {
    let end_frames: u64 = match options.end_frames {
        Some(end) => end,
        None => arrangement_end,
    };
    let start = options.start_frames;
    let span: int = end_frames - start;
    let tail: int = if options.include_tail && !options.looping {
        graph_tail as int
    } else {
        0
    };
    let too_long = EngineError::RenderTooLong { frames: span as u64, limit: MAX_RENDER_FRAMES };
    let total = span + tail;
    let warmup = if options.looping && span > 0 {
        warmup_frames(graph_tail as int, span)
    } else {
        0
    };
    let latency = graph_latency + warmup;
    let end = total + latency;
    if end_frames < start {
        Err(EngineError::InvalidRange { start, end: end_frames })
    } else if span > MAX_RENDER_FRAMES || span > usize::MAX || total > usize::MAX || warmup
        > usize::MAX || latency > usize::MAX || end > usize::MAX || end > MAX_RENDER_FRAMES {
        Err(too_long)
    } else {
        Ok(
            RenderGeometry {
                block_frames: clamp_block(options.block_frames),
                start_frames: start,
                total: total as usize,
                end: end as usize,
                latency: latency as usize,
                ranged: options.end_frames is Some && !options.looping,
                performed: span as usize,
                looping: options.looping,
            },
        )
    }
}

/// The warm-up of a cycle export is a whole number of cycles, the fewest that cover both one
/// cycle and the graph's tail.
pub proof fn lemma_warmup_whole_cycles_covering_tail(graph_tail: int, span: int)
    requires
        graph_tail >= 0,
        span > 0,
    ensures
        warmup_frames(graph_tail, span) % span == 0,
        warmup_frames(graph_tail, span) >= span,
        warmup_frames(graph_tail, span) >= graph_tail,
        warmup_frames(graph_tail, span) - span < graph_tail || warmup_frames(graph_tail, span)
            == span,
{
    let longest = if graph_tail > span {
        graph_tail
    } else {
        span
    };
    let q = longest / span;
    let r = longest % span;
    assert(longest == span * q + r && 0 <= r < span && q >= 1) by (nonlinear_arith)
        requires
            span > 0,
            longest >= span,
            q == longest / span,
            r == longest % span,
    ;
    let cycles = q + if r != 0 {
        1int
    } else {
        0int
    };
    assert(warmup_frames(graph_tail, span) == cycles * span);
    assert((cycles * span) % span == 0) by (nonlinear_arith)
        requires
            span > 0,
    ;
    assert(cycles * span == span * q + if r != 0 {
        span
    } else {
        0
    }) by (nonlinear_arith)
        requires
            cycles == q + if r != 0 {
                1int
            } else {
                0int
            },
    ;
    assert(span * q >= span) by (nonlinear_arith)
        requires
            q >= 1,
            span > 0,
    ;
}

/// What a planned render is: it performs the range from its start to its end (the options' end,
/// or the arrangement's), adds the graph's tail after it only when asked and not cycling, and
/// throws away a lead-in first: the graph's delay compensation, and for a cycle export a warm-up
/// of whole cycles at least one cycle and at least the tail long. A backwards range is refused.
pub proof fn lemma_plan_covers_range_tail_and_warmup(
    options: OfflineOptions,
    arrangement_end: u64,
    graph_tail: usize,
    graph_latency: usize,
)
    ensures
        ({
            let end_frames: u64 = match options.end_frames {
                Some(end) => end,
                None => arrangement_end,
            };
            match render_plan(options, arrangement_end, graph_tail, graph_latency) {
                Ok(g) => {
                    let warmup = g.latency - graph_latency;
                    &&& options.start_frames <= end_frames
                    &&& g.start_frames == options.start_frames
                    &&& g.looping == options.looping
                    &&& g.ranged == (options.end_frames is Some && !options.looping)
                    &&& 1 <= g.block_frames <= MAX_BLOCK_FRAMES
                    &&& g.performed == end_frames - options.start_frames
                    &&& g.total == g.performed + if options.include_tail && !options.looping {
                        graph_tail as int
                    } else {
                        0
                    }
                    &&& g.end == g.total + g.latency
                    &&& g.latency >= graph_latency
                    &&& (!options.looping || g.performed == 0 ==> g.latency == graph_latency)
                    &&& (options.looping && g.performed > 0 ==> {
                        &&& g.latency >= graph_latency + g.performed
                        &&& g.latency >= graph_latency + graph_tail
                        &&& warmup % (g.performed as int) == 0
                        &&& (warmup == g.performed || warmup - g.performed < graph_tail)
                    })
                },
                Err(EngineError::InvalidRange { start, end }) => end_frames < options.start_frames
                    && start == options.start_frames && end == end_frames,
                Err(_) => options.start_frames <= end_frames,
            }
        }),
{
    let end_frames: u64 = match options.end_frames {
        Some(end) => end,
        None => arrangement_end,
    };
    let span: int = end_frames - options.start_frames;
    if options.looping && span > 0 {
        lemma_warmup_whole_cycles_covering_tail(graph_tail as int, span);
    }
}

/// A geometry a render can be played from.
pub open spec fn geometry_wf(geometry: RenderGeometry) -> bool {
    &&& 1 <= geometry.block_frames <= MAX_BLOCK_FRAMES
    &&& geometry.performed <= geometry.total
    &&& geometry.end == geometry.total + geometry.latency
    &&& geometry.end <= MAX_RENDER_FRAMES
}

/// Whether a geometry can be played: what [`plan_render`] hands out always can.
pub fn geometry_is_playable(geometry: &RenderGeometry) -> (playable: bool)
    ensures
        playable == geometry_wf(*geometry),
{
    1 <= geometry.block_frames && geometry.block_frames <= MAX_BLOCK_FRAMES && geometry.performed
        <= geometry.total && geometry.total <= usize::MAX - geometry.latency && geometry.end
        == geometry.total + geometry.latency && geometry.end as u64 <= MAX_RENDER_FRAMES
}

/// Works out the geometry of a render from its options and what the built graph reports.
///
/// `arrangement_end` is where the arrangement ends, used when the options name no end;
/// `graph_tail` is the longest effect tail and `graph_latency` the delay-compensation lead-in of
/// the graph the render will play.
pub fn plan_render(
    options: &OfflineOptions,
    arrangement_end: u64,
    graph_tail: usize,
    graph_latency: usize,
) -> (plan: Result<RenderGeometry, EngineError>)
    ensures
        plan == render_plan(*options, arrangement_end, graph_tail, graph_latency),
        plan matches Ok(geometry) ==> geometry_wf(geometry),
        plan matches Ok(g) ==> (options.looping && g.performed > 0 ==> {
            &&& g.latency >= graph_latency + g.performed
            &&& g.latency >= graph_latency + graph_tail
            &&& (g.latency - graph_latency) % (g.performed as int) == 0
        }),
        plan matches Ok(g) ==> (!options.looping ==> g.latency == graph_latency),
{
    proof {
        lemma_plan_covers_range_tail_and_warmup(*options, arrangement_end, graph_tail, graph_latency);
    }
    let block_frames = clamp_block_frames(options.block_frames);
    let end_frames: u64 = match options.end_frames {
        Some(end) => end,
        None => arrangement_end,
    };
    if end_frames < options.start_frames {
        return Err(EngineError::InvalidRange { start: options.start_frames, end: end_frames });
    }
    let tail: usize = if options.include_tail && !options.looping {
        graph_tail
    } else {
        0
    };
    let span: u64 = end_frames - options.start_frames;
    let too_long = EngineError::RenderTooLong { frames: span, limit: MAX_RENDER_FRAMES };
    if span > MAX_RENDER_FRAMES {
        return Err(too_long);
    }
    if span > usize::MAX as u64 {
        return Err(too_long);
    }
    let span_frames = span as usize;
    let total: usize = match span_frames.checked_add(tail) {
        Some(total) => total,
        None => return Err(too_long),
    };
    let warmup: usize = if options.looping && span_frames > 0 {
        let longest = if graph_tail > span_frames {
            graph_tail
        } else {
            span_frames
        };
        proof {
            if longest % span_frames != 0 {
                assert(span_frames >= 2);
                assert(longest / span_frames <= longest / 2) by {
                    vstd::arithmetic::div_mod::lemma_div_is_ordered_by_denominator(
                        longest as int,
                        2,
                        span_frames as int,
                    );
                }
            }
        }
        let cycles = longest / span_frames + if longest % span_frames != 0 {
            1usize
        } else {
            0usize
        };
        match cycles.checked_mul(span_frames) {
            Some(frames) => frames,
            None => return Err(too_long),
        }
    } else {
        0
    };
    let latency: usize = match graph_latency.checked_add(warmup) {
        Some(latency) => latency,
        None => return Err(too_long),
    };
    let end: usize = match total.checked_add(latency) {
        Some(end) => end,
        None => return Err(too_long),
    };
    if end as u64 > MAX_RENDER_FRAMES {
        return Err(too_long);
    }
    Ok(
        RenderGeometry {
            block_frames,
            start_frames: options.start_frames,
            total,
            end,
            latency,
            ranged: options.end_frames.is_some() && !options.looping,
            performed: total - tail,
            looping: options.looping,
        },
    )
}

/// Where a render pass has got to: frames rendered, frames handed to the output, and whether
/// the transport is still rolling.
#[derive(Copy, Clone, Debug, PartialEq, Eq)]
pub struct RenderCursor {
    /// Frames the graph has rendered, lead-in included.
    pub rendered: usize,
    /// Frames handed to the output so far.
    pub emitted: usize,
    /// Whether the transport is rolling.
    pub playing: bool,
}

/// What one turn of the render loop does.
#[derive(Copy, Clone, Debug, PartialEq, Eq)]
pub struct RenderBlock {
    /// Whether the transport is stopped, and the voices released, before this block: the range's
    /// end has been reached.
    pub stop_first: bool,
    /// Frames to render.
    pub frames: usize,
    /// Frames at the front of the block that are still lead-in and are thrown away.
    pub skip: usize,
    /// Frames after the lead-in that go to the output.
    pub count: usize,
}

/// The frames of output a render has produced once `rendered` frames have gone through the
/// graph: nothing during the lead-in, then everything, up to the output's length.
pub open spec fn emitted_after(geometry: RenderGeometry, rendered: int) -> int {
    if rendered <= geometry.latency {
        0
    } else if rendered - geometry.latency >= geometry.total {
        geometry.total as int
    } else {
        rendered - geometry.latency
    }
}

/// A cursor a pass over `geometry` can be at.
pub open spec fn on_track(geometry: RenderGeometry, cursor: RenderCursor) -> bool {
    &&& cursor.rendered <= geometry.end
    &&& cursor.emitted == emitted_after(geometry, cursor.rendered as int)
    &&& (geometry.ranged && cursor.playing ==> cursor.rendered <= geometry.performed)
    &&& (geometry.ranged && !cursor.playing ==> cursor.rendered >= geometry.performed)
    &&& (!geometry.ranged ==> cursor.playing)
}

/// The cursor every pass starts from: nothing rendered, the transport rolling.
pub fn start_cursor() -> (cursor: RenderCursor)
    ensures
        cursor == (RenderCursor { rendered: 0, emitted: 0, playing: true }),
{
    RenderCursor { rendered: 0, emitted: 0, playing: true }
}

/// Whether a pass is finished.
pub fn render_done(geometry: &RenderGeometry, cursor: &RenderCursor) -> (done: bool)
    ensures
        done == (cursor.rendered >= geometry.end),
{
    cursor.rendered >= geometry.end
}

/// Decides the next block of a pass and where the pass stands after it.
///
/// The range's end is a stop, exactly as realtime playback stops there: a ranged render stops
/// the transport once it has rendered the performed part, and never renders a block across that
/// boundary. A block is never longer than the block size nor than what is left; what of it is
/// still lead-in is thrown away and the rest, up to the output's length, goes out. What goes
/// out is always the rendered frames exactly the lead-in past the output position, which is what
/// keeps an exported file lined up with the timeline.
pub fn next_block(geometry: &RenderGeometry, cursor: &RenderCursor) -> (step: (
    RenderBlock,
    RenderCursor,
))
    requires
        geometry_wf(*geometry),
        on_track(*geometry, *cursor),
        cursor.rendered < geometry.end,
    ensures
        ({
            let (block, next) = step;
            let stop = geometry.ranged && cursor.playing && cursor.rendered >= geometry.performed;
            let rolling = cursor.playing && !stop;
            let left = geometry.end - cursor.rendered;
            let sized = if geometry.block_frames < left {
                geometry.block_frames as int
            } else {
                left
            };
            let frames = if geometry.ranged && rolling && geometry.performed - cursor.rendered
                < sized {
                geometry.performed - cursor.rendered
            } else {
                sized
            };
            let lead = if geometry.latency > cursor.rendered {
                geometry.latency - cursor.rendered
            } else {
                0
            };
            let skip = if lead < frames {
                lead
            } else {
                frames
            };
            &&& block.stop_first == stop
            &&& block.frames == frames
            &&& block.skip == skip
            &&& block.count == if skip < frames {
                let room = geometry.total - cursor.emitted;
                if frames - skip < room {
                    frames - skip
                } else {
                    room
                }
            } else {
                0
            }
            &&& 1 <= block.frames <= geometry.block_frames
            &&& (block.count > 0 ==> cursor.rendered + block.skip == geometry.latency + cursor.emitted)
            &&& next == (RenderCursor {
                rendered: (cursor.rendered + block.frames) as usize,
                emitted: (cursor.emitted + block.count) as usize,
                playing: rolling,
            })
            &&& on_track(*geometry, next)
        }),
{
    let stop_first = geometry.ranged && cursor.playing && cursor.rendered >= geometry.performed;
    let playing = cursor.playing && !stop_first;
    let left = geometry.end - cursor.rendered;
    let mut frames = if geometry.block_frames < left {
        geometry.block_frames
    } else {
        left
    };
    if geometry.ranged && playing && geometry.performed - cursor.rendered < frames {
        frames = geometry.performed - cursor.rendered;
    }
    let lead = if geometry.latency > cursor.rendered {
        geometry.latency - cursor.rendered
    } else {
        0
    };
    let skip = if lead < frames {
        lead
    } else {
        frames
    };
    let count = if skip < frames {
        let room = geometry.total - cursor.emitted;
        if frames - skip < room {
            frames - skip
        } else {
            room
        }
    } else {
        0
    };
    let block = RenderBlock { stop_first, frames, skip, count };
    let next = RenderCursor {
        rendered: cursor.rendered + frames,
        emitted: cursor.emitted + count,
        playing,
    };
    (block, next)
}

/// A pass ends having handed out exactly the output's length: once everything up to the end
/// has been rendered, the blocks' output counts add up to the output's length.
pub proof fn lemma_pass_emits_total(geometry: RenderGeometry, cursor: RenderCursor)
    requires
        geometry_wf(geometry),
        on_track(geometry, cursor),
        cursor.rendered == geometry.end,
    ensures
        cursor.emitted == geometry.total,
{
}

} // verus!
