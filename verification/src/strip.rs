//! The mixer strip's switch logic: the mute fade, and what an effect chain adds up to.
//!
//! The fade is counted in frames, not in blocks, which is what keeps it independent of the
//! block size: splitting a block in two and advancing the halves separately lands on the same
//! positions, because a linear slide cut anywhere is still the same slide. Turning a position
//! into a gain is a division done in floating point by whoever applies it.
use vstd::prelude::*;

verus! {

/// The mute switch as a position sliding between silence (`0`) and unity (`length`).
#[derive(Copy, Clone, Debug, PartialEq, Eq)]
pub struct MuteFade {
    /// Frames the slide takes end to end.
    length: usize,
    /// How far up the slide the gain currently sits.
    position: usize,
    /// Which end the slide is heading for.
    open: bool,
}

/// How far the fade slid across one block, and over how many frames of it.
#[derive(Copy, Clone, Debug, PartialEq, Eq)]
pub struct FadeStep {
    /// Position the fade sat at on the block's first frame.
    pub first: usize,
    /// Whether the position climbs or falls across the block.
    pub opening: bool,
    /// Frames the fade slides over before settling.
    pub moving: usize,
}

/// Where a slide of `length` frames sits after `frames` more frames heading for `open`.
pub open spec fn settle(position: nat, length: nat, open: bool, frames: nat) -> nat {
    if open {
        if position + frames <= length {
            position + frames
        } else {
            length
        }
    } else {
        if frames <= position {
            (position - frames) as nat
        } else {
            0
        }
    }
}

/// Position of the `k`-th frame of a block that begins at `position`: sliding until the end is
/// reached, then settled there.
pub open spec fn frame_position(position: nat, length: nat, open: bool, k: nat) -> nat {
    settle(position, length, open, k)
}

/// Frames left before a slide of `length` frames at `position` reaches the end it is heading
/// for.
pub open spec fn slide_left(position: nat, length: nat, open: bool) -> nat {
    if open {
        (length - position) as nat
    } else {
        position
    }
}

/// Frames a block of `frames` slides a fade at `position`: as many as it has, at most what is
/// left of the slide.
pub open spec fn slid(position: nat, length: nat, open: bool, frames: nat) -> nat {
    if slide_left(position, length, open) < frames {
        slide_left(position, length, open)
    } else {
        frames
    }
}

impl MuteFade {
    /// The fade's shape: a slide at least one frame long, with the fade on it.
    pub open spec fn shaped(self) -> bool {
        1 <= self.slide_length() && self.slide_position() <= self.slide_length()
    }

    /// The fade is well formed: a slide at least one frame long, with the position on it.
    #[verifier::type_invariant]
    spec fn wf(self) -> bool {
        1 <= self.length && self.position <= self.length
    }

    /// Frames the slide takes end to end.
    pub closed spec fn slide_length(self) -> nat {
        self.length as nat
    }

    /// Where on the slide the fade sits.
    pub closed spec fn slide_position(self) -> nat {
        self.position as nat
    }

    /// Which end the fade is heading for.
    pub closed spec fn heading_open(self) -> bool {
        self.open
    }

    /// A fade already settled: at unity when `open`, at silence otherwise.
    ///
    /// `length` is the slide's length in frames; a slide of no frames is one frame long, so a
    /// position always divides by something.
    pub fn new(open: bool, length: usize) -> (fade: Self)
        ensures
            fade.shaped(),
            fade.slide_length() == if length == 0 {
                1
            } else {
                length as nat
            },
            fade.slide_position() == if open {
                fade.slide_length()
            } else {
                0
            },
            fade.heading_open() == open,
    {
        let length = if length == 0 {
            1
        } else {
            length
        };
        MuteFade { length, position: if open { length } else { 0 }, open }
    }

    /// Frames the slide takes end to end.
    pub fn length(&self) -> (length: usize)
        ensures
            self.shaped(),
            length == self.slide_length(),
    {
        proof {
            use_type_invariant(&*self);
        }
        self.length
    }

    /// Where on the slide the fade sits.
    pub fn position(&self) -> (position: usize)
        ensures
            self.shaped(),
            position == self.slide_position(),
    {
        proof {
            use_type_invariant(&*self);
        }
        self.position
    }

    /// Aims the fade at unity or at silence. Nothing moves until [`Self::advance`] runs.
    pub fn set_open(&mut self, open: bool)
        ensures
            final(self).shaped(),
            final(self).heading_open() == open,
            final(self).slide_position() == old(self).slide_position(),
            final(self).slide_length() == old(self).slide_length(),
    {
        proof {
            use_type_invariant(&*self);
        }
        self.open = open;
    }

    /// `true` once the fade has reached silence and is staying there.
    pub fn is_closed(&self) -> (closed: bool)
        ensures
            self.shaped(),
            closed == (!self.heading_open() && self.slide_position() == 0),
    {
        proof {
            use_type_invariant(&*self);
        }
        !self.open && self.position == 0
    }

    /// `true` once the fade has reached unity and is staying there.
    pub fn is_open(&self) -> (open: bool)
        ensures
            self.shaped(),
            open == (self.heading_open() && self.slide_position() == self.slide_length()),
    {
        proof {
            use_type_invariant(&*self);
        }
        self.open && self.position == self.length
    }

    /// Position of the frame `offset` frames into a slide that began at `first`.
    ///
    /// Derived from the start rather than accumulated frame by frame, so the value for a given
    /// frame is the same however the block containing it was cut up.
    pub fn position_at(&self, first: usize, opening: bool, offset: usize) -> (position: usize)
        requires
            opening ==> first + offset <= usize::MAX,
            !opening ==> offset <= first,
        ensures
            self.shaped(),
            position == if opening {
                first + offset
            } else {
                first - offset
            },
    {
        proof {
            use_type_invariant(&*self);
        }
        if opening {
            first + offset
        } else {
            first - offset
        }
    }

    /// Consumes up to `frames` frames of the slide.
    pub fn advance(&mut self, frames: usize) -> (step: FadeStep)
        ensures
            final(self).shaped(),
            final(self).slide_position() <= final(self).slide_length(),
            final(self).slide_length() == old(self).slide_length(),
            final(self).heading_open() == old(self).heading_open(),
            final(self).slide_position() == settle(
                old(self).slide_position(),
                old(self).slide_length(),
                old(self).heading_open(),
                frames as nat,
            ),
            step.first == old(self).slide_position(),
            step.opening == old(self).heading_open(),
            step.moving == slid(
                old(self).slide_position(),
                old(self).slide_length(),
                old(self).heading_open(),
                frames as nat,
            ),
            step.opening ==> final(self).slide_position() == step.first + step.moving,
            !step.opening ==> final(self).slide_position() == step.first - step.moving,
    {
        proof {
            use_type_invariant(&*self);
        }
        let first = self.position;
        let remaining = if self.open {
            self.length - self.position
        } else {
            self.position
        };
        let moving = if remaining < frames {
            remaining
        } else {
            frames
        };
        self.position = if self.open {
            self.position + moving
        } else {
            self.position - moving
        };
        FadeStep { first, opening: self.open, moving }
    }
}

/// Advancing a fade by `a` frames and then by `b` lands where advancing it by `a + b` does:
/// the slide does not depend on where a block boundary falls.
pub proof fn lemma_fade_split(position: nat, length: nat, open: bool, a: nat, b: nat)
    requires
        position <= length,
    ensures
        settle(settle(position, length, open, a), length, open, b) == settle(
            position,
            length,
            open,
            a + b,
        ),
{
}

/// Every frame of a block split at `a` sits where it would in the uncut block: the frames
/// after the cut, counted from the position the first part left, are the same positions.
pub proof fn lemma_fade_frames_split(position: nat, length: nat, open: bool, a: nat, k: nat)
    requires
        position <= length,
        a <= k,
    ensures
        frame_position(settle(position, length, open, a), length, open, (k - a) as nat)
            == frame_position(position, length, open, k),
{
    lemma_fade_split(position, length, open, a, (k - a) as nat);
}

/// The sum of a chain's figures over its enabled slots, saturating at `usize::MAX`.
///
/// The slots run in series, so a tail or a latency adds up along the chain rather than
/// overlapping; a bypassed slot never sees a sample and contributes nothing.
pub open spec fn chain_total(figures: Seq<usize>, enabled: Seq<bool>) -> nat
    decreases figures.len(),
{
    if figures.len() == 0 {
        0
    } else {
        let rest = chain_total(figures.drop_last(), enabled);
        let last = (figures.len() - 1) as int;
        let add: nat = if last < enabled.len() && enabled[last] {
            figures[last] as nat
        } else {
            0
        };
        if rest + add <= usize::MAX {
            rest + add
        } else {
            usize::MAX as nat
        }
    }
}

/// Saturating sum of `figures` over the slots `enabled` marks, slot by slot.
///
/// What a chain's tail and latency are: each slot reports its own figure, and the chain is the
/// sum of the ones that run. Slots past the end of `enabled` count as bypassed.
pub fn chain_frames(figures: &Vec<usize>, enabled: &Vec<bool>) -> (total: usize)
    ensures
        total == chain_total(figures@, enabled@),
{
    let mut total: usize = 0;
    let mut i: usize = 0;
    while i < figures.len()
        invariant
            i <= figures.len(),
            total == chain_total(figures@.subrange(0, i as int), enabled@),
        decreases figures.len() - i,
    {
        assert(figures@.subrange(0, i + 1).drop_last() =~= figures@.subrange(0, i as int));
        if i < enabled.len() && enabled[i] {
            total = total.saturating_add(figures[i]);
        }
        i = i + 1;
    }
    assert(figures@.subrange(0, figures.len() as int) =~= figures@);
    total
}

/// Which slots of a chain run: a slot whose plugin could be had runs when the document enables
/// it, and one whose plugin is missing keeps its place but stays bypassed.
///
/// A missing plugin must not shift the slots after it: commands address effects by their
/// position in the document's chain, so the chain keeps one entry per document slot.
pub fn chain_switches(available: &Vec<bool>, enabled: &Vec<bool>) -> (switches: Vec<bool>)
    requires
        available@.len() == enabled@.len(),
    ensures
        switches@.len() == enabled@.len(),
        forall|i: int| 0 <= i < switches@.len() ==> #[trigger] switches@[i] == (available@[i] && enabled@[i]),
{
    let mut switches: Vec<bool> = Vec::new();
    let mut i: usize = 0;
    while i < enabled.len()
        invariant
            i <= enabled.len(),
            available@.len() == enabled@.len(),
            switches@.len() == i,
            forall|k: int| 0 <= k < i ==> #[trigger] switches@[k] == (available@[k] && enabled@[k]),
        decreases enabled.len() - i,
    {
        switches.push(available[i] && enabled[i]);
        i = i + 1;
    }
    switches
}

/// The fade counts in frames, so cutting a block anywhere changes nothing: sliding `a` frames
/// and then `b` moves the fade as far, in as many frames, as sliding `a + b` at once, and that
/// is all of the block or what was left of the slide, whichever is less.
pub proof fn lemma_fade_advance_split(position: nat, length: nat, open: bool, a: nat, b: nat)
    requires
        position <= length,
    ensures
        settle(settle(position, length, open, a), length, open, b) == settle(
            position,
            length,
            open,
            a + b,
        ),
        slid(position, length, open, a) + slid(settle(position, length, open, a), length, open, b)
            == slid(position, length, open, a + b),
        slid(position, length, open, a + b) == if slide_left(position, length, open) < a + b {
            slide_left(position, length, open)
        } else {
            a + b
        },
{
    lemma_fade_split(position, length, open, a, b);
}

/// A fade only ever moves toward the end it is heading for and never leaves the slide; and it is
/// never closed and open at once.
pub proof fn lemma_fade_moves_toward_target(position: nat, length: nat, open: bool, frames: nat)
    requires
        position <= length,
    ensures
        settle(position, length, open, frames) <= length,
        open ==> position <= settle(position, length, open, frames),
        !open ==> settle(position, length, open, frames) <= position,
        !((!open && position == 0) && (open && position == length)),
{
}

} // verus!
