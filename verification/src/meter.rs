//! Level meters: the readings the audio thread records and the UI shows.
//!
//! The bank itself is a plain value that one owner mutates; handing it between the audio thread
//! and the UI (through atomics or otherwise) is the job of the layer around this library.
//!
//! A reading is the bit pattern of an `f32` level. Working the level out (the decay of a held
//! peak, the comparison with full scale) is arithmetic on floating point and happens before a
//! reading is recorded here; what this bank keeps is the latch logic: which slot holds which
//! reading, which clip indicators are lit, and what clears them.
use vstd::prelude::*;

verus! {

/// Peak readings for every track plus the two master channels, and their clip latches.
pub struct MeterBank {
    tracks: Vec<u32>,
    master: Vec<u32>,
    clipped: Vec<bool>,
    master_clipped: Vec<bool>,
}

/// The master bus is stereo.
pub const MASTER_CHANNELS: usize = 2;

impl MeterBank {
    /// The bank is well formed: one clip latch per track slot and two master channels.
    #[verifier::type_invariant]
    spec fn wf(self) -> bool {
        &&& self.tracks.len() == self.clipped.len()
        &&& self.master.len() == MASTER_CHANNELS
        &&& self.master_clipped.len() == MASTER_CHANNELS
    }

    /// The reading held for each track slot.
    pub closed spec fn track_readings(self) -> Seq<u32> {
        self.tracks@
    }

    /// The reading held for each master channel.
    pub closed spec fn master_readings(self) -> Seq<u32> {
        self.master@
    }

    /// Whether each track slot's clip indicator is lit.
    pub closed spec fn track_latches(self) -> Seq<bool> {
        self.clipped@
    }

    /// Whether each master channel's clip indicator is lit.
    pub closed spec fn master_latches(self) -> Seq<bool> {
        self.master_clipped@
    }

    /// The bank's shape: one clip latch per track reading, and two master channels.
    pub open spec fn shaped(self) -> bool {
        &&& self.track_latches().len() == self.track_readings().len()
        &&& self.master_readings().len() == MASTER_CHANNELS
        &&& self.master_latches().len() == MASTER_CHANNELS
    }

    /// Whether any indicator at all is lit.
    pub open spec fn any_latch(self) -> bool {
        ||| exists|i: int| 0 <= i < self.track_latches().len() && #[trigger] self.track_latches()[i]
        ||| exists|c: int| 0 <= c < self.master_latches().len() && #[trigger] self.master_latches()[c]
    }

    /// A bank sized for `track_capacity` tracks, all reading silence and none clipped.
    ///
    /// The capacity is fixed for the life of the bank; records for indices beyond it are dropped.
    pub fn new(track_capacity: usize) -> (bank: Self)
        ensures
            bank.shaped(),
            bank.track_readings() == Seq::new(track_capacity as nat, |i: int| 0u32),
            bank.track_latches() == Seq::new(track_capacity as nat, |i: int| false),
            bank.master_readings() == seq![0u32, 0u32],
            bank.master_latches() == seq![false, false],
    {
        let mut tracks: Vec<u32> = Vec::new();
        let mut clipped: Vec<bool> = Vec::new();
        let mut i: usize = 0;
        while i < track_capacity
            invariant
                i <= track_capacity,
                tracks@ == Seq::new(i as nat, |k: int| 0u32),
                clipped@ == Seq::new(i as nat, |k: int| false),
            decreases track_capacity - i,
        {
            tracks.push(0);
            clipped.push(false);
            i = i + 1;
        }
        let bank = MeterBank {
            tracks,
            master: vec![0u32, 0u32],
            clipped,
            master_clipped: vec![false, false],
        };
        assert(bank.master@ == seq![0u32, 0u32]);
        assert(bank.master_clipped@ == seq![false, false]);
        bank
    }

    /// Number of track slots this bank can hold.
    pub fn track_capacity(&self) -> (capacity: usize)
        ensures
            self.shaped(),
            capacity == self.track_readings().len(),
    {
        proof {
            use_type_invariant(&*self);
        }
        self.tracks.len()
    }

    /// Records a track's reading, latching its clip indicator when the level reached full scale.
    ///
    /// An index past the capacity records nothing.
    pub fn record_track(&mut self, index: usize, reading: u32, full_scale: bool)
        ensures
            final(self).shaped(),
            final(self).track_readings() == if index < old(self).track_readings().len() {
                old(self).track_readings().update(index as int, reading)
            } else {
                old(self).track_readings()
            },
            final(self).track_latches() == if index < old(self).track_latches().len()
                && full_scale {
                old(self).track_latches().update(index as int, true)
            } else {
                old(self).track_latches()
            },
            final(self).master_readings() == old(self).master_readings(),
            final(self).master_latches() == old(self).master_latches(),
            final(self).track_latches() == latches_after(
                old(self).track_latches(),
                LatchEvent::Track { index, full_scale },
            ),
    {
        proof {
            use_type_invariant(&*self);
        }
        if index < self.tracks.len() {
            self.tracks[index] = reading;
            if full_scale {
                self.clipped[index] = true;
            }
        }
    }

    /// Records a master channel's reading, latching its indicator at full scale.
    ///
    /// A channel past the second records nothing.
    pub fn record_master(&mut self, channel: usize, reading: u32, full_scale: bool)
        ensures
            final(self).shaped(),
            final(self).master_readings() == if channel < MASTER_CHANNELS {
                old(self).master_readings().update(channel as int, reading)
            } else {
                old(self).master_readings()
            },
            final(self).master_latches() == if channel < MASTER_CHANNELS && full_scale {
                old(self).master_latches().update(channel as int, true)
            } else {
                old(self).master_latches()
            },
            final(self).track_readings() == old(self).track_readings(),
            final(self).track_latches() == old(self).track_latches(),
            final(self).track_latches() == latches_after(
                old(self).track_latches(),
                LatchEvent::Master { channel, full_scale },
            ),
    {
        proof {
            use_type_invariant(&*self);
        }
        if channel < self.master.len() {
            self.master[channel] = reading;
            if full_scale {
                self.master_clipped[channel] = true;
            }
        }
    }

    /// Current reading for a track, or 0 (silence) for an out-of-range index.
    pub fn track_reading(&self, index: usize) -> (reading: u32)
        ensures
            self.shaped(),
            reading == if index < self.track_readings().len() {
                self.track_readings()[index as int]
            } else {
                0u32
            },
    {
        proof {
            use_type_invariant(&*self);
        }
        if index < self.tracks.len() {
            self.tracks[index]
        } else {
            0
        }
    }

    /// Current reading for one master channel, or 0 (silence) past the second.
    pub fn master_channel_reading(&self, channel: usize) -> (reading: u32)
        ensures
            self.shaped(),
            reading == if channel < MASTER_CHANNELS {
                self.master_readings()[channel as int]
            } else {
                0u32
            },
    {
        proof {
            use_type_invariant(&*self);
        }
        if channel < self.master.len() {
            self.master[channel]
        } else {
            0
        }
    }

    /// Whether a track has been over full scale since the indicator was last cleared.
    pub fn track_clipped(&self, index: usize) -> (lit: bool)
        ensures
            self.shaped(),
            lit == (index < self.track_latches().len() && self.track_latches()[index as int]),
    {
        proof {
            use_type_invariant(&*self);
        }
        index < self.clipped.len() && self.clipped[index]
    }

    /// Whether either master channel has been over full scale since the last clear.
    pub fn master_clipped(&self) -> (lit: bool)
        ensures
            self.shaped(),
            lit == (self.master_latches()[0] || self.master_latches()[1]),
    {
        proof {
            use_type_invariant(&*self);
        }
        self.master_clipped[0] || self.master_clipped[1]
    }

    /// Whether anything at all is showing a clip.
    pub fn anything_clipped(&self) -> (lit: bool)
        ensures
            self.shaped(),
            lit == self.any_latch(),
            lit == (self.master_latches()[0] || self.master_latches()[1] || exists|i: int|
                0 <= i < self.track_latches().len() && #[trigger] self.track_latches()[i]),
    {
        proof {
            use_type_invariant(&*self);
        }
        if self.master_clipped() {
            return true;
        }
        let mut i: usize = 0;
        while i < self.clipped.len()
            invariant
                self.master_clipped@.len() == MASTER_CHANNELS,
                self.master@.len() == MASTER_CHANNELS,
                self.tracks@.len() == self.clipped@.len(),
                i <= self.clipped.len(),
                !self.master_clipped@[0] && !self.master_clipped@[1],
                forall|k: int| 0 <= k < i ==> !self.clipped@[k],
            decreases self.clipped.len() - i,
        {
            if self.clipped[i] {
                assert(self.track_latches()[i as int]);
                return true;
            }
            i = i + 1;
        }
        assert forall|c: int| 0 <= c < self.master_latches().len() implies !self.master_latches()[c] by {
            assert(c == 0 || c == 1);
        }
        false
    }

    /// Puts out every clip indicator, leaving the readings alone.
    pub fn clear_clipped(&mut self)
        ensures
            final(self).shaped(),
            final(self).track_latches() == Seq::new(old(self).track_latches().len(), |i: int| false),
            final(self).track_latches() == latches_after(old(self).track_latches(), LatchEvent::ClearClipped),
            final(self).master_latches() == seq![false, false],
            final(self).track_readings() == old(self).track_readings(),
            final(self).master_readings() == old(self).master_readings(),
    {
        proof {
            use_type_invariant(&*self);
        }
        let n = self.clipped.len();
        let mut i: usize = 0;
        while i < n
            invariant
                n == self.clipped.len(),
                i <= n,
                self.tracks@ == old(self).tracks@,
                self.master@ == old(self).master@,
                self.master_clipped@ == old(self).master_clipped@,
                self.clipped@.len() == old(self).clipped@.len(),
                self.tracks@.len() == self.clipped@.len(),
                self.master@.len() == MASTER_CHANNELS,
                self.master_clipped@.len() == MASTER_CHANNELS,
                forall|k: int| 0 <= k < i ==> !self.clipped@[k],
            decreases n - i,
        {
            self.clipped[i] = false;
            i = i + 1;
        }
        self.master_clipped[0] = false;
        self.master_clipped[1] = false;
        assert(self.clipped@ =~= Seq::new(old(self).clipped@.len(), |i: int| false));
        assert(self.master_clipped@ =~= seq![false, false]);
    }

    /// Drops every reading to silence and puts out every clip indicator.
    pub fn reset(&mut self)
        ensures
            final(self).shaped(),
            final(self).track_readings() == Seq::new(old(self).track_readings().len(), |i: int| 0u32),
            final(self).master_readings() == seq![0u32, 0u32],
            final(self).track_latches() == Seq::new(old(self).track_latches().len(), |i: int| false),
            final(self).track_latches() == latches_after(old(self).track_latches(), LatchEvent::Reset),
            final(self).master_latches() == seq![false, false],
    {
        proof {
            use_type_invariant(&*self);
        }
        self.clear_clipped();
        let n = self.tracks.len();
        let mut i: usize = 0;
        while i < n
            invariant
                n == self.tracks.len(),
                i <= n,
                self.wf(),
                self.clipped@ == Seq::new(old(self).clipped@.len(), |i: int| false),
                self.master_clipped@ == seq![false, false],
                self.tracks@.len() == old(self).tracks@.len(),
                forall|k: int| 0 <= k < i ==> self.tracks@[k] == 0,
            decreases n - i,
        {
            self.tracks[i] = 0;
            i = i + 1;
        }
        self.master[0] = 0;
        self.master[1] = 0;
        assert(self.tracks@ =~= Seq::new(old(self).tracks@.len(), |i: int| 0u32));
        assert(self.master@ =~= seq![0u32, 0u32]);
    }

    /// Silences track readings and clip indicators from `index` onwards.
    ///
    /// Called when a smaller graph is installed, so a deleted track's meter does not keep its
    /// last level for ever. Slots before `index` and the master are left alone.
    pub fn clear_tracks_from(&mut self, index: usize)
        ensures
            final(self).shaped(),
            final(self).track_readings().len() == old(self).track_readings().len(),
            forall|i: int|
                0 <= i < old(self).track_readings().len() ==> #[trigger] final(self).track_readings()[i] == if i < index {
                    old(self).track_readings()[i]
                } else {
                    0u32
                },
            forall|i: int|
                0 <= i < old(self).track_latches().len() ==> #[trigger] final(self).track_latches()[i] == (i < index && old(self).track_latches()[i]),
            final(self).track_latches() == latches_after(
                old(self).track_latches(),
                LatchEvent::ClearTracksFrom { index },
            ),
            final(self).master_readings() == old(self).master_readings(),
            final(self).master_latches() == old(self).master_latches(),
    {
        proof {
            use_type_invariant(&*self);
        }
        let n = self.tracks.len();
        let mut i: usize = index;
        while i < n
            invariant
                n == self.tracks.len(),
                n == self.clipped.len(),
                self.master@.len() == MASTER_CHANNELS,
                self.master_clipped@.len() == MASTER_CHANNELS,
                index <= i,
                self.master@ == old(self).master@,
                self.master_clipped@ == old(self).master_clipped@,
                self.tracks@.len() == old(self).tracks@.len(),
                self.clipped@.len() == old(self).clipped@.len(),
                forall|k: int|
                    0 <= k < n ==> #[trigger] self.tracks@[k] == if index <= k < i {
                        0u32
                    } else {
                        old(self).tracks@[k]
                    },
                forall|k: int|
                    0 <= k < n ==> #[trigger] self.clipped@[k] == if index <= k < i {
                        false
                    } else {
                        old(self).clipped@[k]
                    },
            decreases n - i,
        {
            self.tracks[i] = 0;
            self.clipped[i] = false;
            i = i + 1;
        }
        assert(self.clipped@ =~= latches_after(old(self).clipped@, LatchEvent::ClearTracksFrom { index }));
    }
}

/// One thing done to a bank, as far as its track clip indicators are concerned.
#[derive(Copy, Clone, Debug, PartialEq, Eq)]
pub enum LatchEvent {
    /// [`MeterBank::record_track`] of a reading, at full scale or not.
    Track { index: usize, full_scale: bool },
    /// [`MeterBank::record_master`] of a reading, at full scale or not.
    Master { channel: usize, full_scale: bool },
    /// [`MeterBank::clear_clipped`].
    ClearClipped,
    /// [`MeterBank::reset`].
    Reset,
    /// [`MeterBank::clear_tracks_from`] the track `index` on.
    ClearTracksFrom { index: usize },
}

/// The track clip indicators after `event`.
pub open spec fn latches_after(latches: Seq<bool>, event: LatchEvent) -> Seq<bool> {
    match event {
        LatchEvent::Track { index, full_scale } => if index < latches.len() && full_scale {
            latches.update(index as int, true)
        } else {
            latches
        },
        LatchEvent::Master { .. } => latches,
        LatchEvent::ClearClipped | LatchEvent::Reset => Seq::new(latches.len(), |i: int| false),
        LatchEvent::ClearTracksFrom { index } => Seq::new(
            latches.len(),
            |i: int| i < index && latches[i],
        ),
    }
}

/// The track clip indicators after `events`, in order.
pub open spec fn latches_replayed(latches: Seq<bool>, events: Seq<LatchEvent>) -> Seq<bool>
    decreases events.len(),
{
    if events.len() == 0 {
        latches
    } else {
        latches_after(latches_replayed(latches, events.drop_last()), events.last())
    }
}

/// Whether `event` lights track `i`'s indicator: a reading of that track at full scale.
pub open spec fn lights(event: LatchEvent, i: int) -> bool {
    match event {
        LatchEvent::Track { index, full_scale } => index == i && full_scale,
        _ => false,
    }
}

/// Whether `event` puts track `i`'s indicator out.
pub open spec fn puts_out(event: LatchEvent, i: int) -> bool {
    match event {
        LatchEvent::ClearClipped | LatchEvent::Reset => true,
        LatchEvent::ClearTracksFrom { index } => index <= i,
        _ => false,
    }
}

/// Whether track `i` reached full scale at some point of `events` after which nothing put its
/// indicator out.
pub open spec fn lit_since_cleared(events: Seq<LatchEvent>, i: int) -> bool {
    exists|k: int|
        0 <= k < events.len() && #[trigger] lights(events[k], i) && forall|m: int|
            k < m < events.len() ==> !#[trigger] puts_out(events[m], i)
}

/// A track's clip indicator, in a bank made for `n` tracks, is lit exactly when the track was
/// recorded at full scale and nothing has put its indicator out since: not a clear, not a reset,
/// not a clearing of the tracks from it on. A master reading never lights a track.
pub proof fn lemma_latch_history(n: nat, events: Seq<LatchEvent>, i: int)
    requires
        0 <= i < n,
    ensures
        latches_replayed(Seq::new(n, |k: int| false), events).len() == n,
        latches_replayed(Seq::new(n, |k: int| false), events)[i] == lit_since_cleared(events, i),
    decreases events.len(),
{
    let fresh = Seq::new(n, |k: int| false);
    if events.len() == 0 {
        assert(!lit_since_cleared(events, i));
    } else {
        let rest = events.drop_last();
        let last = events.last();
        let at = events.len() - 1;
        lemma_latch_history(n, rest, i);
        let prev = latches_replayed(fresh, rest);
        if lights(last, i) {
            assert(lights(events[at], i));
        } else if puts_out(last, i) {
            if lit_since_cleared(events, i) {
                let k = choose|k: int|
                    0 <= k < events.len() && #[trigger] lights(events[k], i) && forall|m: int|
                        k < m < events.len() ==> !#[trigger] puts_out(events[m], i);
                assert(k != at);
                assert(!puts_out(events[at], i));
            }
        } else {
            assert(latches_replayed(fresh, events)[i] == prev[i]);
            if lit_since_cleared(events, i) {
                let k = choose|k: int|
                    0 <= k < events.len() && #[trigger] lights(events[k], i) && forall|m: int|
                        k < m < events.len() ==> !#[trigger] puts_out(events[m], i);
                assert(k != at);
                assert(rest[k] == events[k]);
                assert forall|m: int| k < m < rest.len() implies !#[trigger] puts_out(rest[m], i) by {
                    assert(rest[m] == events[m]);
                    assert(!puts_out(events[m], i));
                }
                assert(lights(rest[k], i));
            }
            if lit_since_cleared(rest, i) {
                let k = choose|k: int|
                    0 <= k < rest.len() && #[trigger] lights(rest[k], i) && forall|m: int|
                        k < m < rest.len() ==> !#[trigger] puts_out(rest[m], i);
                assert(events[k] == rest[k]);
                assert forall|m: int| k < m < events.len() implies !#[trigger] puts_out(events[m], i) by {
                    if m < at {
                        assert(events[m] == rest[m]);
                        assert(!puts_out(rest[m], i));
                    }
                }
                assert(lights(events[k], i));
            }
        }
    }
}

} // verus!
