use gamepad_facade::ieee::{Double, Single};
use gamepad_facade::web::{
    button_at, button_pressed, button_value, diff_pad, forget, init, next_event, poll, Backend,
    ButtonReading, PadReading, Reply, Step,
};
use gamepad_facade::{Axis, Button, Event, EventKind, Id};

fn double(x: f64) -> Double {
    Double { bits: x.to_bits() }
}

fn single(x: f32) -> Single {
    Single { bits: x.to_bits() }
}

fn released() -> Option<ButtonReading> {
    Some(ButtonReading { pressed: false, value: double(0.0) })
}

fn pressed(value: f64) -> Option<ButtonReading> {
    Some(ButtonReading { pressed: true, value: double(value) })
}

/// A standard pad with nothing pressed and its sticks centred.
fn pad(index: u32) -> PadReading {
    PadReading {
        index,
        connected: true,
        standard: true,
        buttons: vec![released(); 17],
        axes: vec![Some(double(0.0)); 4],
    }
}

fn live() -> Backend {
    let mut b = Backend::default();
    init(&mut b, "test", true);
    b
}

/// Hands a snapshot over and drains everything it leads to.
fn frame(b: &mut Backend, list: Vec<Option<PadReading>>) -> Vec<Event> {
    assert_eq!(next_event(b, Reply::Start), Step::TakeSnapshot);
    let mut events = Vec::new();
    let mut step = next_event(b, Reply::Snapshot(Some(list)));
    while let Step::Return { event: Some(event), .. } = step {
        events.push(event);
        step = next_event(b, Reply::Start);
    }
    events
}

fn event(index: u32, kind: EventKind) -> Event {
    Event { id: Id(index), kind }
}

fn motion(index: u32, axis: Axis, value: f32) -> Event {
    event(index, EventKind::AxisMotion { axis, value: single(value) })
}

#[test]
fn nothing_comes_before_init() {
    let mut b = Backend::default();
    let none = Step::Return { event: None, unmapped: None };
    assert_eq!(next_event(&mut b, Reply::Start), none);
    assert_eq!(next_event(&mut b, Reply::Snapshot(Some(vec![Some(pad(0))]))), none);
    init(&mut b, "test", false);
    assert_eq!(next_event(&mut b, Reply::Start), none);
    init(&mut b, "test", true);
    assert_eq!(next_event(&mut b, Reply::Start), Step::TakeSnapshot);
}

#[test]
fn a_snapshot_that_cannot_be_taken_is_no_event() {
    let mut b = live();
    assert_eq!(next_event(&mut b, Reply::Start), Step::TakeSnapshot);
    assert_eq!(
        next_event(&mut b, Reply::Snapshot(None)),
        Step::Return { event: None, unmapped: None }
    );
}

#[test]
fn the_first_input_on_a_pad_comes_after_its_connection() {
    let mut b = live();
    let mut p = pad(3);
    p.buttons[0] = pressed(1.0);
    assert_eq!(
        frame(&mut b, vec![None, Some(p)]),
        vec![event(3, EventKind::Connected), event(3, EventKind::ButtonDown(Button::South))]
    );
}

#[test]
fn every_standard_button_has_its_index() {
    let buttons = [
        (0, Button::South),
        (1, Button::East),
        (2, Button::West),
        (3, Button::North),
        (4, Button::LeftShoulder),
        (5, Button::RightShoulder),
        (8, Button::Back),
        (9, Button::Start),
        (10, Button::LeftStick),
        (11, Button::RightStick),
        (12, Button::DPadUp),
        (13, Button::DPadDown),
        (14, Button::DPadLeft),
        (15, Button::DPadRight),
        (16, Button::Guide),
    ];
    let mut b = live();
    frame(&mut b, vec![Some(pad(0))]);
    for (i, button) in buttons {
        let mut p = pad(0);
        p.buttons[i] = pressed(1.0);
        assert_eq!(frame(&mut b, vec![Some(p)]), vec![event(0, EventKind::ButtonDown(button))]);
        assert_eq!(
            frame(&mut b, vec![Some(pad(0))]),
            vec![event(0, EventKind::ButtonUp(button))]
        );
    }
}

#[test]
fn buttons_past_the_standard_mapping_are_ignored() {
    let mut b = live();
    let mut p = pad(0);
    p.buttons.push(pressed(1.0));
    p.buttons.push(pressed(1.0));
    p.axes.push(Some(double(1.0)));
    assert_eq!(frame(&mut b, vec![Some(p)]), vec![event(0, EventKind::Connected)]);
}

#[test]
fn triggers_are_axes() {
    let mut b = live();
    frame(&mut b, vec![Some(pad(0))]);
    let mut p = pad(0);
    p.buttons[6] = pressed(0.5);
    p.buttons[7] = pressed(1.75);
    assert_eq!(
        frame(&mut b, vec![Some(p)]),
        vec![motion(0, Axis::TriggerLeft, 0.5), motion(0, Axis::TriggerRight, 1.0)]
    );
    assert_eq!(
        frame(&mut b, vec![Some(pad(0))]),
        vec![motion(0, Axis::TriggerLeft, 0.0), motion(0, Axis::TriggerRight, 0.0)]
    );
}

#[test]
fn changes_come_as_buttons_then_triggers_then_sticks() {
    let mut b = live();
    frame(&mut b, vec![Some(pad(0))]);
    let mut p = pad(0);
    p.buttons[9] = pressed(1.0);
    p.buttons[2] = pressed(1.0);
    p.buttons[7] = pressed(0.25);
    p.axes[3] = Some(double(-2.0));
    p.axes[0] = Some(double(0.1));
    assert_eq!(
        frame(&mut b, vec![Some(p)]),
        vec![
            event(0, EventKind::ButtonDown(Button::West)),
            event(0, EventKind::ButtonDown(Button::Start)),
            motion(0, Axis::TriggerRight, 0.25),
            motion(0, Axis::LeftX, 0.1),
            motion(0, Axis::RightY, -1.0),
        ]
    );
}

#[test]
fn jitter_is_measured_from_the_last_reported_value() {
    let mut b = live();
    frame(&mut b, vec![Some(pad(0))]);
    let at = |x: f64| {
        let mut p = pad(0);
        p.axes[1] = Some(double(x));
        vec![Some(p)]
    };
    assert_eq!(frame(&mut b, at(0.0015)), vec![]);
    assert_eq!(frame(&mut b, at(-0.0015)), vec![]);
    assert_eq!(frame(&mut b, at(0.0015)), vec![]);
    assert_eq!(frame(&mut b, at(1.0 / 512.0)), vec![motion(0, Axis::LeftY, 1.0 / 512.0)]);
    assert_eq!(frame(&mut b, at(0.003)), vec![]);
    assert_eq!(frame(&mut b, at(0.004)), vec![motion(0, Axis::LeftY, 0.004)]);
}

#[test]
fn an_unchanged_snapshot_is_silent() {
    let mut b = live();
    let mut p = pad(0);
    p.buttons[0] = pressed(1.0);
    p.buttons[6] = pressed(0.3);
    p.axes[2] = Some(double(-0.7));
    let mut q = pad(1);
    q.standard = false;
    let list = vec![Some(p), None, Some(q)];
    assert_eq!(frame(&mut b, list.clone()).len(), 5);
    assert_eq!(frame(&mut b, list.clone()), vec![]);
    assert_eq!(frame(&mut b, list), vec![]);
}

#[test]
fn two_readings_of_one_pad_are_never_settled() {
    let mut b = live();
    let mut p = pad(0);
    p.buttons[0] = pressed(1.0);
    let list = vec![Some(p), Some(pad(0))];
    let down = event(0, EventKind::ButtonDown(Button::South));
    let up = event(0, EventKind::ButtonUp(Button::South));
    assert_eq!(
        frame(&mut b, list.clone()),
        vec![event(0, EventKind::Connected), down, up]
    );
    assert_eq!(frame(&mut b, list), vec![down, up]);
}

#[test]
fn a_vanished_pad_is_disconnected_and_forgotten() {
    let mut b = live();
    let mut p = pad(2);
    p.buttons[1] = pressed(1.0);
    frame(&mut b, vec![Some(p.clone())]);
    assert_eq!(frame(&mut b, vec![None]), vec![event(2, EventKind::Disconnected)]);
    assert_eq!(frame(&mut b, vec![]), vec![]);
    assert_eq!(
        frame(&mut b, vec![Some(p)]),
        vec![event(2, EventKind::Connected), event(2, EventKind::ButtonDown(Button::East))]
    );
}

#[test]
fn a_pad_that_says_it_is_not_connected_is_a_hole() {
    let mut b = live();
    frame(&mut b, vec![Some(pad(0))]);
    let mut p = pad(0);
    p.connected = false;
    p.buttons[0] = pressed(1.0);
    assert_eq!(frame(&mut b, vec![Some(p)]), vec![event(0, EventKind::Disconnected)]);
}

#[test]
fn all_vanished_pads_are_announced_once() {
    let mut b = live();
    frame(&mut b, vec![Some(pad(0)), Some(pad(1)), Some(pad(2)), Some(pad(3))]);
    let mut p = pad(1);
    p.buttons[16] = pressed(1.0);
    let events = frame(&mut b, vec![Some(p)]);
    assert_eq!(events[0], event(1, EventKind::ButtonDown(Button::Guide)));
    let mut gone: Vec<u32> = events[1..].iter().map(|e| e.id.0).collect();
    gone.sort();
    assert_eq!(gone, vec![0, 2, 3]);
    assert!(events[1..].iter().all(|e| e.kind == EventKind::Disconnected));
}

#[test]
fn forgetting_announces_in_the_order_given() {
    let mut b = live();
    frame(&mut b, vec![Some(pad(0)), Some(pad(1)), Some(pad(2))]);
    forget(&mut b, &vec![2, 0]);
    for index in [2, 0] {
        assert_eq!(
            next_event(&mut b, Reply::Start),
            Step::Return { event: Some(event(index, EventKind::Disconnected)), unmapped: None }
        );
    }
    assert_eq!(next_event(&mut b, Reply::Start), Step::TakeSnapshot);
}

#[test]
fn a_missing_mapping_is_complained_about_once() {
    let mut b = live();
    let mut p = pad(4);
    p.standard = false;
    let mut q = pad(5);
    q.standard = false;
    assert_eq!(poll(&mut b, &vec![Some(pad(1)), Some(p.clone()), Some(q.clone())]), Some(4));
    assert_eq!(poll(&mut b, &vec![Some(p.clone()), Some(q.clone())]), None);
    let mut b = live();
    p.connected = false;
    assert_eq!(poll(&mut b, &vec![Some(p), Some(pad(1))]), None);
    assert_eq!(
        next_event(&mut b, Reply::Snapshot(Some(vec![Some(pad(1)), Some(q)]))),
        Step::Return { event: Some(event(1, EventKind::Connected)), unmapped: Some(5) }
    );
}

#[test]
fn a_pad_without_a_standard_mapping_is_read_by_raw_index() {
    let mut b = live();
    let mut p = pad(0);
    p.standard = false;
    p.buttons[3] = pressed(1.0);
    assert_eq!(
        frame(&mut b, vec![Some(p)]),
        vec![event(0, EventKind::Connected), event(0, EventKind::ButtonDown(Button::North))]
    );
}

#[test]
fn entries_that_are_no_buttons_change_nothing() {
    let mut b = live();
    let mut p = pad(0);
    p.buttons[0] = pressed(1.0);
    p.buttons[6] = pressed(0.5);
    frame(&mut b, vec![Some(p)]);
    let mut p = pad(0);
    p.buttons[0] = None;
    p.buttons[6] = None;
    assert_eq!(frame(&mut b, vec![Some(p)]), vec![]);
    assert_eq!(
        frame(&mut b, vec![Some(pad(0))]),
        vec![event(0, EventKind::ButtonUp(Button::South)), motion(0, Axis::TriggerLeft, 0.0)]
    );
}

#[test]
fn an_axis_that_holds_no_number_is_at_rest() {
    let mut b = live();
    let mut p = pad(0);
    p.axes[0] = Some(double(0.5));
    p.axes[1] = Some(double(0.5));
    frame(&mut b, vec![Some(p.clone())]);
    p.axes[0] = None;
    p.axes[1] = Some(double(f64::NAN));
    assert_eq!(frame(&mut b, vec![Some(p)]), vec![motion(0, Axis::LeftX, 0.0)]);
}

#[test]
fn a_pad_with_fewer_controls_loses_the_rest_silently() {
    let mut b = live();
    let mut p = pad(0);
    p.buttons[16] = pressed(1.0);
    p.axes[3] = Some(double(1.0));
    frame(&mut b, vec![Some(p.clone())]);
    let mut short = pad(0);
    short.buttons.truncate(4);
    short.axes.truncate(2);
    assert_eq!(frame(&mut b, vec![Some(short)]), vec![]);
    assert_eq!(
        frame(&mut b, vec![Some(p)]),
        vec![
            event(0, EventKind::ButtonDown(Button::Guide)),
            motion(0, Axis::RightY, 1.0),
        ]
    );
}

#[test]
fn a_caller_that_replays_events_knows_the_buttons() {
    let mut b = live();
    let mut held: Vec<Button> = Vec::new();
    for round in 0..64_u32 {
        let mut p = pad(0);
        for i in 0..17 {
            if (round * 37 + i * 11) % 5 < 2 {
                p.buttons[i as usize] = pressed(0.0);
            }
        }
        for e in frame(&mut b, vec![Some(p.clone())]) {
            match e.kind {
                EventKind::ButtonDown(button) => {
                    assert!(!held.contains(&button));
                    held.push(button);
                }
                EventKind::ButtonUp(button) => {
                    assert!(held.contains(&button));
                    held.retain(|x| *x != button);
                }
                _ => assert_eq!(e.kind, EventKind::Connected),
            }
        }
        let down = |i: usize| button_pressed(&p.buttons, i) == Some(true);
        assert_eq!(held.contains(&Button::South), down(0));
        assert_eq!(held.contains(&Button::Back), down(8));
        assert_eq!(held.contains(&Button::Guide), down(16));
    }
}

#[test]
fn readings_past_the_end_are_none() {
    let buttons = vec![pressed(0.75), None];
    assert!(button_at(&buttons, 0).is_some());
    assert!(button_at(&buttons, 1).is_none());
    assert!(button_at(&buttons, 2).is_none());
    assert_eq!(button_pressed(&buttons, 0), Some(true));
    assert_eq!(button_pressed(&buttons, 5), None);
    assert_eq!(button_value(&buttons, 0), Some(single(0.75)));
    assert_eq!(button_value(&buttons, 1), None);
}

#[test]
fn diffing_a_pad_announces_nothing() {
    let mut b = live();
    let mut p = pad(9);
    p.buttons[12] = pressed(1.0);
    diff_pad(&mut b, 9, &p);
    assert_eq!(
        next_event(&mut b, Reply::Start),
        Step::Return { event: Some(event(9, EventKind::ButtonDown(Button::DPadUp))), unmapped: None }
    );
    assert_eq!(next_event(&mut b, Reply::Start), Step::TakeSnapshot);
}

#[test]
fn two_pads_are_kept_apart() {
    let mut b = live();
    frame(&mut b, vec![Some(pad(0)), Some(pad(1))]);
    let mut first = pad(0);
    first.buttons[0] = pressed(1.0);
    let mut second = pad(1);
    second.axes[2] = Some(double(0.5));
    assert_eq!(
        frame(&mut b, vec![Some(first.clone()), Some(pad(1))]),
        vec![event(0, EventKind::ButtonDown(Button::South))]
    );
    assert_eq!(
        frame(&mut b, vec![Some(first), Some(second.clone())]),
        vec![motion(1, Axis::RightX, 0.5)]
    );
    assert_eq!(
        frame(&mut b, vec![Some(pad(0)), Some(second)]),
        vec![event(0, EventKind::ButtonUp(Button::South))]
    );
}

#[test]
fn presses_and_releases_alternate() {
    let mut b = live();
    let mut down = false;
    for held in [false, true, true, false, false, true, false] {
        let mut p = pad(2);
        p.buttons[9] = if held { pressed(1.0) } else { released() };
        for event in frame(&mut b, vec![Some(p)]) {
            match event.kind {
                EventKind::ButtonDown(Button::Start) => {
                    assert!(!down);
                    down = true;
                }
                EventKind::ButtonUp(Button::Start) => {
                    assert!(down);
                    down = false;
                }
                kind => assert_eq!(kind, EventKind::Connected),
            }
        }
        assert_eq!(down, held);
    }
}

#[test]
fn the_mapping_changes_only_the_complaint() {
    let (mut a, mut b) = (live(), live());
    let mut p = pad(4);
    p.buttons[0] = pressed(1.0);
    p.axes[1] = Some(double(-0.25));
    let mut q = p.clone();
    q.standard = false;
    let event = Some(event(4, EventKind::Connected));
    assert_eq!(
        next_event(&mut a, Reply::Snapshot(Some(vec![Some(p)]))),
        Step::Return { event, unmapped: None }
    );
    assert_eq!(
        next_event(&mut b, Reply::Snapshot(Some(vec![Some(q)]))),
        Step::Return { event, unmapped: Some(4) }
    );
    for _ in 0..3 {
        assert_eq!(next_event(&mut a, Reply::Start), next_event(&mut b, Reply::Start));
    }
    assert_eq!(next_event(&mut a, Reply::Start), Step::TakeSnapshot);
}

#[test]
fn a_trigger_reading_that_is_not_a_number_is_no_event() {
    let buttons = vec![pressed(f64::NAN)];
    let value = button_value(&buttons, 0).unwrap();
    assert!(f32::from_bits(value.bits).is_nan());
    let mut b = live();
    let mut p = pad(0);
    p.buttons[6] = pressed(0.5);
    frame(&mut b, vec![Some(p.clone())]);
    p.buttons[6] = pressed(f64::NAN);
    assert_eq!(frame(&mut b, vec![Some(p.clone())]), vec![]);
    p.buttons[6] = pressed(0.5);
    assert_eq!(frame(&mut b, vec![Some(p.clone())]), vec![]);
    p.buttons[6] = pressed(0.75);
    assert_eq!(frame(&mut b, vec![Some(p)]), vec![motion(0, Axis::TriggerLeft, 0.75)]);
}
