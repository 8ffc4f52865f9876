//! The document's automation lanes, resolved to where they land in the render graph.
//!
//! The document addresses a parameter by id and the graph addresses it by position, so every
//! lookup happens once, here, when the graph is built. A lane naming something this graph does
//! not have resolves to nothing and is dropped, rather than driving whatever now sits at that
//! position.
use vstd::prelude::*;

verus! {

/// One track's mixer as automation addresses it: its id, its sends' ids and its effect slots'
/// ids, each list in order.
#[derive(Clone, Debug, PartialEq, Eq)]
pub struct MixerLayout {
    /// The track's id.
    pub id: u64,
    /// The id of each send, in send order.
    pub sends: Vec<u64>,
    /// The id of each effect slot, in chain order.
    pub effects: Vec<u64>,
}

/// What a lane drives, in the document's own terms.
#[derive(Copy, Clone, Debug, PartialEq, Eq)]
pub enum ParamTarget {
    /// A track's fader, by track id.
    TrackGain(u64),
    /// A track's pan, by track id.
    TrackPan(u64),
    /// The master fader.
    MasterGain,
    /// The master pan.
    MasterPan,
    /// One of a track's sends, by track id and send id.
    Send { track: u64, send: u64 },
    /// A parameter on a track's instrument.
    Instrument { track: u64, param: u64 },
    /// A parameter on an effect, on a track (by id) or on the master bus.
    Effect { track: Option<u64>, slot: u64, param: u64 },
}

/// Where an automated value goes, in the graph's own coordinates.
#[derive(Copy, Clone, Debug, PartialEq, Eq)]
pub enum AutomationSlot {
    /// A track's fader, by track index.
    TrackGain(usize),
    /// A track's pan, by track index.
    TrackPan(usize),
    /// The master fader.
    MasterGain,
    /// The master pan.
    MasterPan,
    /// One of a track's send levels, by track index and position in its send list.
    Send { track: usize, send: usize },
    /// A parameter on a track's instrument.
    Instrument { track: usize, param: u64 },
    /// A parameter on an effect, on a track (by index) or on the master bus.
    Effect { track: Option<usize>, slot: usize, param: u64 },
}

/// Position of the first `id` in `ids`.
pub open spec fn position_of(ids: Seq<u64>, id: u64) -> Option<usize>
    decreases ids.len(),
{
    if ids.len() == 0 {
        None
    } else {
        match position_of(ids.drop_last(), id) {
            Some(i) => Some(i),
            None => if ids.last() == id {
                Some((ids.len() - 1) as usize)
            } else {
                None
            },
        }
    }
}

/// The ids of the tracks, in order.
pub open spec fn track_ids(tracks: Seq<MixerLayout>) -> Seq<u64> {
    tracks.map_values(|track: MixerLayout| track.id)
}

/// Position of the first track with id `id`.
pub open spec fn track_position(tracks: Seq<MixerLayout>, id: u64) -> Option<usize> {
    position_of(track_ids(tracks), id)
}

/// Where `target` lands in a graph of these tracks and this master chain, if anywhere.
pub open spec fn slot_of(tracks: Seq<MixerLayout>, master_effects: Seq<u64>, target: ParamTarget) -> Option<
    AutomationSlot,
> {
    match target {
        ParamTarget::TrackGain(id) => match track_position(tracks, id) {
            Some(i) => Some(AutomationSlot::TrackGain(i)),
            None => None,
        },
        ParamTarget::TrackPan(id) => match track_position(tracks, id) {
            Some(i) => Some(AutomationSlot::TrackPan(i)),
            None => None,
        },
        ParamTarget::MasterGain => Some(AutomationSlot::MasterGain),
        ParamTarget::MasterPan => Some(AutomationSlot::MasterPan),
        ParamTarget::Send { track, send } => match track_position(tracks, track) {
            Some(i) => match position_of(tracks[i as int].sends@, send) {
                Some(s) => Some(AutomationSlot::Send { track: i, send: s }),
                None => None,
            },
            None => None,
        },
        ParamTarget::Instrument { track, param } => match track_position(tracks, track) {
            Some(i) => Some(AutomationSlot::Instrument { track: i, param }),
            None => None,
        },
        ParamTarget::Effect { track: Some(id), slot, param } => match track_position(tracks, id) {
            Some(i) => match position_of(tracks[i as int].effects@, slot) {
                Some(s) => Some(AutomationSlot::Effect { track: Some(i), slot: s, param }),
                None => None,
            },
            None => None,
        },
        ParamTarget::Effect { track: None, slot, param } => match position_of(master_effects, slot) {
            Some(s) => Some(AutomationSlot::Effect { track: None, slot: s, param }),
            None => None,
        },
    }
}

/// Finding an id scans in order and stops at the first match.
fn find_id(ids: &Vec<u64>, id: u64) -> (found: Option<usize>)
    ensures
        found == position_of(ids@, id),
        found matches Some(i) ==> i < ids@.len(),
{
    let mut i: usize = 0;
    while i < ids.len()
        invariant
            i <= ids.len(),
            position_of(ids@.take(i as int), id) is None,
        decreases ids.len() - i,
    {
        proof {
            assert(ids@.take(i + 1).drop_last() =~= ids@.take(i as int));
        }
        if ids[i] == id {
            proof {
                lemma_position_stays(ids@, id, (i + 1) as nat);
            }
            return Some(i);
        }
        i = i + 1;
    }
    proof {
        assert(ids@.take(ids.len() as int) =~= ids@);
    }
    None
}

/// A position found in a prefix is the position in the whole list.
pub proof fn lemma_position_stays(ids: Seq<u64>, id: u64, n: nat)
    requires
        n <= ids.len(),
        position_of(ids.take(n as int), id) is Some,
    ensures
        position_of(ids, id) == position_of(ids.take(n as int), id),
    decreases ids.len() - n,
{
    if n < ids.len() {
        assert(ids.take((n + 1) as int).drop_last() =~= ids.take(n as int));
        lemma_position_stays(ids, id, (n + 1) as nat);
    } else {
        assert(ids.take(n as int) =~= ids);
    }
}

/// Position of the first track with id `id`.
fn find_track(tracks: &Vec<MixerLayout>, id: u64) -> (found: Option<usize>)
    ensures
        found == track_position(tracks@, id),
        found matches Some(i) ==> i < tracks@.len(),
{
    let mut ids: Vec<u64> = Vec::new();
    let mut i: usize = 0;
    while i < tracks.len()
        invariant
            i <= tracks.len(),
            ids@ == track_ids(tracks@).take(i as int),
        decreases tracks.len() - i,
    {
        ids.push(tracks[i].id);
        i = i + 1;
        proof {
            assert(ids@ =~= track_ids(tracks@).take(i as int));
        }
    }
    proof {
        assert(track_ids(tracks@).take(tracks.len() as int) =~= track_ids(tracks@));
    }
    find_id(&ids, id)
}

/// `i` is where `id` first occurs in `ids`.
pub open spec fn first_at(ids: Seq<u64>, id: u64, i: int) -> bool {
    &&& 0 <= i < ids.len()
    &&& ids[i] == id
    &&& forall|j: int| 0 <= j < i ==> ids[j] != id
}

/// Finding an id gives the first place it occurs, and nothing exactly when it does not occur.
pub proof fn lemma_position_is_first(ids: Seq<u64>, id: u64)
    requires
        ids.len() <= usize::MAX,
    ensures
        match position_of(ids, id) {
            Some(i) => first_at(ids, id, i as int),
            None => !ids.contains(id),
        },
    decreases ids.len(),
{
    if ids.len() > 0 {
        let rest = ids.drop_last();
        lemma_position_is_first(rest, id);
        match position_of(rest, id) {
            Some(i) => {
                assert(rest[i as int] == ids[i as int]);
                assert forall|j: int| 0 <= j < i implies ids[j] != id by {
                    assert(rest[j] == ids[j]);
                }
            },
            None => {
                assert forall|j: int| 0 <= j < ids.len() - 1 implies ids[j] != id by {
                    assert(rest[j] == ids[j]);
                    if ids[j] == id {
                        assert(rest.contains(id));
                    }
                }
                if ids.last() != id {
                    assert forall|j: int| 0 <= j < ids.len() implies ids[j] != id by {}
                    if ids.contains(id) {
                        let j = choose|j: int| 0 <= j < ids.len() && ids[j] == id;
                        assert(ids[j] != id);
                    }
                }
            },
        }
    } else {
        if ids.contains(id) {
            let j = choose|j: int| 0 <= j < ids.len() && ids[j] == id;
        }
    }
}

/// `i` is the first track whose id is `id`.
pub open spec fn first_track(tracks: Seq<MixerLayout>, id: u64, i: int) -> bool {
    &&& 0 <= i < tracks.len()
    &&& tracks[i].id == id
    &&& forall|j: int| 0 <= j < i ==> tracks[j].id != id
}

/// `slot` is where `target` lives: the same kind of parameter, on the first track carrying the
/// target's track id, at the first send or effect slot carrying the target's id there, with the
/// same parameter number.
pub open spec fn lands_on(
    tracks: Seq<MixerLayout>,
    master_effects: Seq<u64>,
    target: ParamTarget,
    slot: AutomationSlot,
) -> bool {
    match target {
        ParamTarget::TrackGain(id) => slot matches AutomationSlot::TrackGain(i) && first_track(
            tracks,
            id,
            i as int,
        ),
        ParamTarget::TrackPan(id) => slot matches AutomationSlot::TrackPan(i) && first_track(
            tracks,
            id,
            i as int,
        ),
        ParamTarget::MasterGain => slot is MasterGain,
        ParamTarget::MasterPan => slot is MasterPan,
        ParamTarget::Send { track, send } => slot matches AutomationSlot::Send { track: i, send: s }
            && first_track(tracks, track, i as int) && first_at(
            tracks[i as int].sends@,
            send,
            s as int,
        ),
        ParamTarget::Instrument { track, param } => slot matches AutomationSlot::Instrument {
            track: i,
            param: p,
        } && p == param && first_track(tracks, track, i as int),
        ParamTarget::Effect { track: Some(id), slot: effect, param } => slot matches AutomationSlot::Effect {
            track: Some(i),
            slot: s,
            param: p,
        } && p == param && first_track(tracks, id, i as int) && first_at(
            tracks[i as int].effects@,
            effect,
            s as int,
        ),
        ParamTarget::Effect { track: None, slot: effect, param } => slot matches AutomationSlot::Effect {
            track: None,
            slot: s,
            param: p,
        } && p == param && first_at(master_effects, effect, s as int),
    }
}

/// Whether everything `target` names exists: its track, and on it (or on the master bus) the
/// send or effect slot it names.
pub open spec fn target_present(
    tracks: Seq<MixerLayout>,
    master_effects: Seq<u64>,
    target: ParamTarget,
) -> bool {
    match target {
        ParamTarget::TrackGain(id) => exists|i: int| first_track(tracks, id, i),
        ParamTarget::TrackPan(id) => exists|i: int| first_track(tracks, id, i),
        ParamTarget::MasterGain | ParamTarget::MasterPan => true,
        ParamTarget::Send { track, send } => exists|i: int|
            first_track(tracks, track, i) && tracks[i].sends@.contains(send),
        ParamTarget::Instrument { track, .. } => exists|i: int| first_track(tracks, track, i),
        ParamTarget::Effect { track: Some(id), slot, .. } => exists|i: int|
            first_track(tracks, id, i) && tracks[i].effects@.contains(slot),
        ParamTarget::Effect { track: None, slot, .. } => master_effects.contains(slot),
    }
}

/// Looking a track up gives the first track with that id, and nothing when there is none.
pub proof fn lemma_track_position_is_first(tracks: Seq<MixerLayout>, id: u64)
    requires
        tracks.len() <= usize::MAX,
    ensures
        match track_position(tracks, id) {
            Some(i) => first_track(tracks, id, i as int),
            None => forall|i: int| !first_track(tracks, id, i),
        },
{
    let ids = track_ids(tracks);
    lemma_position_is_first(ids, id);
    assert forall|j: int| 0 <= j < tracks.len() implies ids[j] == #[trigger] tracks[j].id by {}
    match track_position(tracks, id) {
        Some(i) => {},
        None => {
            assert forall|i: int| !first_track(tracks, id, i) by {
                if first_track(tracks, id, i) {
                    assert(ids[i] == id);
                    assert(ids.contains(id));
                }
            }
        },
    }
}

/// Two firsts are the same place.
proof fn lemma_first_track_unique(tracks: Seq<MixerLayout>, id: u64, i: int, k: int)
    requires
        first_track(tracks, id, i),
        first_track(tracks, id, k),
    ensures
        i == k,
{
}

/// A lane resolves exactly when what it names exists, and then to where that lives: a pan lane to
/// the pan of the track with its id, a send lane to that send on that track, and so on; never to
/// a parameter of another kind or of another track.
pub proof fn lemma_slot_is_where_target_lives(
    tracks: Seq<MixerLayout>,
    master_effects: Seq<u64>,
    target: ParamTarget,
)
    requires
        tracks.len() <= usize::MAX,
        master_effects.len() <= usize::MAX,
    ensures
        slot_of(tracks, master_effects, target) is Some <==> target_present(
            tracks,
            master_effects,
            target,
        ),
        slot_of(tracks, master_effects, target) matches Some(slot) ==> lands_on(
            tracks,
            master_effects,
            target,
            slot,
        ),
{
    match target {
        ParamTarget::MasterGain | ParamTarget::MasterPan => {},
        ParamTarget::Effect { track: None, slot, param } => {
            lemma_position_is_first(master_effects, slot);
        },
        ParamTarget::TrackGain(id) | ParamTarget::TrackPan(id) | ParamTarget::Instrument { track: id, .. } => {
            lemma_track_position_is_first(tracks, id);
            if target_present(tracks, master_effects, target) {
                let k = choose|k: int| first_track(tracks, id, k);
                assert(first_track(tracks, id, k));
            }
        },
        ParamTarget::Send { track, send } => {
            lemma_track_position_is_first(tracks, track);
            match track_position(tracks, track) {
                Some(i) => {
                    assert(tracks[i as int].sends.len() == tracks[i as int].sends@.len());
                    lemma_position_is_first(tracks[i as int].sends@, send);
                    if target_present(tracks, master_effects, target) {
                        let k = choose|k: int|
                            first_track(tracks, track, k) && tracks[k].sends@.contains(send);
                        lemma_first_track_unique(tracks, track, i as int, k);
                    }
                },
                None => {
                    if target_present(tracks, master_effects, target) {
                        let k = choose|k: int|
                            first_track(tracks, track, k) && tracks[k].sends@.contains(send);
                        assert(first_track(tracks, track, k));
                    }
                },
            }
        },
        ParamTarget::Effect { track: Some(id), slot, param } => {
            lemma_track_position_is_first(tracks, id);
            match track_position(tracks, id) {
                Some(i) => {
                    assert(tracks[i as int].effects.len() == tracks[i as int].effects@.len());
                    lemma_position_is_first(tracks[i as int].effects@, slot);
                    if target_present(tracks, master_effects, target) {
                        let k = choose|k: int|
                            first_track(tracks, id, k) && tracks[k].effects@.contains(slot);
                        lemma_first_track_unique(tracks, id, i as int, k);
                    }
                },
                None => {
                    if target_present(tracks, master_effects, target) {
                        let k = choose|k: int|
                            first_track(tracks, id, k) && tracks[k].effects@.contains(slot);
                        assert(first_track(tracks, id, k));
                    }
                },
            }
        },
    }
}

/// Where one target lands in a graph of these tracks and this master chain, if anywhere.
pub fn resolve_slot(tracks: &Vec<MixerLayout>, master_effects: &Vec<u64>, target: ParamTarget) -> (slot:
    Option<AutomationSlot>)
    ensures
        slot == slot_of(tracks@, master_effects@, target),
        slot is Some <==> target_present(tracks@, master_effects@, target),
        slot matches Some(s) ==> lands_on(tracks@, master_effects@, target, s),
{
    proof {
        assert(tracks.len() == tracks@.len() && master_effects.len() == master_effects@.len());
        lemma_slot_is_where_target_lives(tracks@, master_effects@, target);
    }
    match target {
        ParamTarget::TrackGain(id) => match find_track(tracks, id) {
            Some(i) => Some(AutomationSlot::TrackGain(i)),
            None => None,
        },
        ParamTarget::TrackPan(id) => match find_track(tracks, id) {
            Some(i) => Some(AutomationSlot::TrackPan(i)),
            None => None,
        },
        ParamTarget::MasterGain => Some(AutomationSlot::MasterGain),
        ParamTarget::MasterPan => Some(AutomationSlot::MasterPan),
        ParamTarget::Send { track, send } => match find_track(tracks, track) {
            Some(i) => {
                match find_id(&tracks[i].sends, send) {
                    Some(s) => Some(AutomationSlot::Send { track: i, send: s }),
                    None => None,
                }
            },
            None => None,
        },
        ParamTarget::Instrument { track, param } => match find_track(tracks, track) {
            Some(i) => Some(AutomationSlot::Instrument { track: i, param }),
            None => None,
        },
        ParamTarget::Effect { track: Some(id), slot, param } => match find_track(tracks, id) {
            Some(i) => {
                match find_id(&tracks[i].effects, slot) {
                    Some(s) => Some(AutomationSlot::Effect { track: Some(i), slot: s, param }),
                    None => None,
                }
            },
            None => None,
        },
        ParamTarget::Effect { track: None, slot, param } => match find_id(master_effects, slot) {
            Some(s) => Some(AutomationSlot::Effect { track: None, slot: s, param }),
            None => None,
        },
    }
}

/// Every lane whose target lands somewhere, by lane index and in lane order, with where it lands;
/// over the first `n` lanes.
pub open spec fn resolved_lanes(
    tracks: Seq<MixerLayout>,
    master_effects: Seq<u64>,
    targets: Seq<ParamTarget>,
    n: nat,
) -> Seq<(usize, AutomationSlot)>
    decreases n,
{
    if n == 0 || n > targets.len() {
        Seq::empty()
    } else {
        let rest = resolved_lanes(tracks, master_effects, targets, (n - 1) as nat);
        match slot_of(tracks, master_effects, targets[n - 1]) {
            Some(slot) => rest.push(((n - 1) as usize, slot)),
            None => rest,
        }
    }
}

/// Translates every lane's target into a graph position, dropping the ones that resolve to
/// nothing.
pub fn resolve_automation(tracks: &Vec<MixerLayout>, master_effects: &Vec<u64>, targets: &Vec<
    ParamTarget,
>) -> (lanes: Vec<(usize, AutomationSlot)>)
    ensures
        lanes@ == resolved_lanes(tracks@, master_effects@, targets@, targets@.len()),
{
    let mut lanes: Vec<(usize, AutomationSlot)> = Vec::new();
    let mut i: usize = 0;
    while i < targets.len()
        invariant
            i <= targets.len(),
            lanes@ == resolved_lanes(tracks@, master_effects@, targets@, i as nat),
        decreases targets.len() - i,
    {
        match resolve_slot(tracks, master_effects, targets[i]) {
            Some(slot) => lanes.push((i, slot)),
            None => {},
        }
        i = i + 1;
    }
    lanes
}

} // verus!
