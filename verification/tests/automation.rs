use auris_engine::automation::{
    resolve_automation, resolve_slot, AutomationSlot, MixerLayout, ParamTarget,
};

fn tracks() -> Vec<MixerLayout> {
    vec![
        MixerLayout {
            id: 7,
            sends: vec![70, 71],
            effects: vec![700],
        },
        MixerLayout {
            id: 8,
            sends: vec![],
            effects: vec![800, 801],
        },
    ]
}

#[test]
fn a_lane_lands_on_the_position_of_what_it_names() {
    let tracks = tracks();
    let master = vec![900];
    assert_eq!(
        resolve_slot(&tracks, &master, ParamTarget::TrackGain(8)),
        Some(AutomationSlot::TrackGain(1))
    );
    assert_eq!(
        resolve_slot(&tracks, &master, ParamTarget::Send { track: 7, send: 71 }),
        Some(AutomationSlot::Send { track: 0, send: 1 })
    );
    assert_eq!(
        resolve_slot(
            &tracks,
            &master,
            ParamTarget::Effect {
                track: Some(8),
                slot: 801,
                param: 3
            }
        ),
        Some(AutomationSlot::Effect {
            track: Some(1),
            slot: 1,
            param: 3
        })
    );
    assert_eq!(
        resolve_slot(
            &tracks,
            &master,
            ParamTarget::Effect {
                track: None,
                slot: 900,
                param: 0
            }
        ),
        Some(AutomationSlot::Effect {
            track: None,
            slot: 0,
            param: 0
        })
    );
    assert_eq!(
        resolve_slot(&tracks, &master, ParamTarget::MasterPan),
        Some(AutomationSlot::MasterPan)
    );
}

#[test]
fn a_lane_pointing_at_something_that_is_gone_resolves_to_nothing() {
    let tracks = tracks();
    let master = vec![];
    assert_eq!(resolve_slot(&tracks, &master, ParamTarget::TrackPan(9_999)), None);
    assert_eq!(
        resolve_slot(&tracks, &master, ParamTarget::Send { track: 8, send: 70 }),
        None
    );
    assert_eq!(
        resolve_slot(
            &tracks,
            &master,
            ParamTarget::Effect {
                track: None,
                slot: 700,
                param: 1
            }
        ),
        None
    );
}

#[test]
fn only_the_lanes_that_land_are_kept_in_their_order() {
    let targets = vec![
        ParamTarget::TrackGain(9_999),
        ParamTarget::Instrument { track: 7, param: 4 },
        ParamTarget::MasterGain,
    ];
    assert_eq!(
        resolve_automation(&tracks(), &vec![], &targets),
        vec![
            (1, AutomationSlot::Instrument { track: 0, param: 4 }),
            (2, AutomationSlot::MasterGain),
        ]
    );
}
