use verseengine::travel::{set_out_refusal, arrival_channel, invitations, parse_channel_id, permanent_invite, shortest_modifier, step_elapsed, step_wait, ChannelInfo, SpaceType, TravelLeg};

fn leg() -> TravelLeg {
    TravelLeg {
        actual_space_id: 10,
        actual_space_type: SpaceType::Road,
        is_in_move: true,
        is_end: false,
        step_start_timestamp: Some(0),
        step_end_timestamp: Some(100),
        road_role_id: Some(5),
        road_id: Some(6),
        destination_id: Some(20),
        destination_role_id: Some(7),
    }
}

#[test]
fn channel_ids_are_read_from_numbers_and_mentions() {
    assert_eq!(parse_channel_id("1234"), Some(1234));
    assert_eq!(parse_channel_id("<#987>"), Some(987));
    assert_eq!(parse_channel_id("<#>"), None);
    assert_eq!(parse_channel_id("#987"), None);
    assert_eq!(parse_channel_id("abc"), None);
}

#[test]
fn shortest_modifier_prefers_no_end_then_earliest_first() {
    assert_eq!(shortest_modifier(&vec![]), None);
    assert_eq!(shortest_modifier(&vec![Some(30), Some(10), Some(10)]), Some(1));
    assert_eq!(shortest_modifier(&vec![Some(30), None, Some(10), None]), Some(1));
}

#[test]
fn step_waits_for_the_end_or_the_modifier() {
    assert_eq!(step_wait(100, None, 1000), 100);
    assert_eq!(step_wait(100, Some(1030), 1000), 30);
    assert_eq!(step_wait(100, Some(1200), 1000), 100);
    assert_eq!(step_wait(100, Some(900), 1000), 100);
}

#[test]
fn planning_a_step_sets_its_times() {
    let mut l = leg();
    l.plan_step(100, Some(1030), 1000);
    assert_eq!(l.step_start_timestamp, Some(1000));
    assert_eq!(l.step_end_timestamp, Some(1030));
    assert!(!l.is_end);
    l.plan_step(100, None, 2000);
    assert_eq!(l.step_end_timestamp, Some(2100));
    assert!(l.is_end);
}

#[test]
fn arrival_moves_to_the_destination() {
    let mut l = leg();
    l.arrive();
    assert_eq!(l.actual_space_id, 20);
    assert_eq!(l.actual_space_type, SpaceType::Place);
    assert!(!l.is_in_move && !l.is_end);
    assert_eq!(l.road_id, None);
    assert_eq!(l.destination_role_id, None);
    assert_eq!(l.step_end_timestamp, None);
    let mut m = leg();
    m.destination_id = None;
    m.arrive();
    assert_eq!(m.actual_space_id, 10);
}

#[test]
fn setting_out_and_reaching_the_end() {
    let mut l = leg();
    l.set_out(500);
    assert!(l.is_in_move && !l.is_end);
    assert_eq!(l.step_start_timestamp, Some(500));
    assert_eq!(l.step_end_timestamp, Some(500));
    l.reach_end();
    assert!(l.is_end);
    assert_eq!(l.step_start_timestamp, None);
}

#[test]
fn elapsed_time_of_a_step() {
    assert_eq!(step_elapsed(150, Some(100), Some(200)), 50);
    assert_eq!(step_elapsed(250, Some(100), Some(200)), 100);
    assert_eq!(step_elapsed(50, Some(100), Some(200)), 0);
    assert_eq!(step_elapsed(50, None, None), 0);
}

fn ch(id: u64, parent: Option<u64>, position: u16, postable: bool) -> ChannelInfo {
    ChannelInfo { id, parent_id: parent, position, postable }
}

#[test]
fn arrival_channel_prefers_the_destination_category() {
    let cs = vec![ch(1, Some(9), 5, true), ch(2, Some(7), 3, true), ch(3, Some(7), 1, false), ch(4, Some(7), 3, true), ch(5, None, 0, true)];
    assert_eq!(arrival_channel(&cs, 7), Some(1));
    assert_eq!(arrival_channel(&cs, 8), Some(4));
    assert_eq!(arrival_channel(&vec![ch(1, Some(7), 0, false)], 7), None);
}

#[test]
fn invitations_go_to_other_guilds() {
    assert_eq!(invitations(1, 1, Some(1), None), (false, None));
    assert_eq!(invitations(1, 2, Some(2), Some(3)), (true, Some(3)));
    assert_eq!(invitations(1, 2, Some(2), Some(2)), (true, None));
    assert_eq!(invitations(1, 1, Some(1), Some(1)), (false, None));
}

#[test]
fn permanent_invites_are_found() {
    assert_eq!(permanent_invite(&vec![(3600, 0), (0, 5), (0, 0), (0, 0)]), Some(2));
    assert_eq!(permanent_invite(&vec![(3600, 0)]), None);
}

#[test]
fn a_crafting_player_cannot_set_out() {
    assert_eq!(set_out_refusal(true), Some("travel__cannot_move_while_crafting".to_string()));
    assert_eq!(set_out_refusal(false), None);
}

#[test]
fn channel_numbers_read_back() {
    for n in [0u64, 7, 10, 1234567890123456789, u64::MAX] {
        assert_eq!(parse_channel_id(&n.to_string()), Some(n));
        assert_eq!(parse_channel_id(&format!("<#{}>", n)), Some(n));
    }
    assert_eq!(parse_channel_id("<#>"), None);
    assert_eq!(parse_channel_id("<#12"), None);
}
