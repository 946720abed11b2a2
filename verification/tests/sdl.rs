use gamepad_facade::ieee::Single;
use gamepad_facade::sdl::{
    axis_value, build_context, hints, init, next_event, Backend, Reply, SdlAxis, SdlButton, SdlEvent, Startup,
    Step,
};
use gamepad_facade::{Axis, Button, Event, EventKind, Id};
use std::rc::Rc;

fn event(which: u32, kind: EventKind) -> Event {
    Event { id: Id(which), kind }
}

fn live(attached: Vec<(u32, Option<Rc<u32>>)>) -> Backend<Rc<u32>> {
    let mut b = Backend::default();
    init(&mut b, Some(Startup { pump: true, listing: Ok(Some(attached)) }));
    b
}

/// Pulls one event off a queue of SDL events, with what opening gives.
fn pull(b: &mut Backend<Rc<u32>>, queue: &mut Vec<(SdlEvent, Option<Rc<u32>>)>) -> Option<Event> {
    let mut reply = Reply::Start;
    let mut pad = None;
    loop {
        match next_event(b, reply) {
            Step::Return(event) => return event,
            Step::Poll => {
                if queue.is_empty() {
                    reply = Reply::Polled(None);
                } else {
                    let (event, opened) = queue.remove(0);
                    pad = opened;
                    reply = Reply::Polled(Some(event));
                }
            }
            Step::Open(which) => reply = Reply::Opened { which, pad: pad.take() },
        }
    }
}

#[test]
fn every_sdl_button_has_its_own() {
    let buttons = [
        (SdlButton::South, Button::South),
        (SdlButton::East, Button::East),
        (SdlButton::West, Button::West),
        (SdlButton::North, Button::North),
        (SdlButton::Back, Button::Back),
        (SdlButton::Start, Button::Start),
        (SdlButton::Guide, Button::Guide),
        (SdlButton::LeftStick, Button::LeftStick),
        (SdlButton::RightStick, Button::RightStick),
        (SdlButton::LeftShoulder, Button::LeftShoulder),
        (SdlButton::RightShoulder, Button::RightShoulder),
        (SdlButton::DPadUp, Button::DPadUp),
        (SdlButton::DPadDown, Button::DPadDown),
        (SdlButton::DPadLeft, Button::DPadLeft),
        (SdlButton::DPadRight, Button::DPadRight),
        (SdlButton::Misc1, Button::Misc1),
        (SdlButton::Misc2, Button::Misc2),
        (SdlButton::Misc3, Button::Misc3),
        (SdlButton::Misc4, Button::Misc4),
        (SdlButton::Misc5, Button::Misc5),
        (SdlButton::Misc6, Button::Misc6),
        (SdlButton::RightPaddle1, Button::RightPaddle1),
        (SdlButton::LeftPaddle1, Button::LeftPaddle1),
        (SdlButton::RightPaddle2, Button::RightPaddle2),
        (SdlButton::LeftPaddle2, Button::LeftPaddle2),
        (SdlButton::Touchpad, Button::Touchpad),
    ];
    let mut b = live(vec![]);
    for (sdl, button) in buttons {
        assert_eq!(Button::from_sdl(sdl), button);
        let mut queue = vec![
            (SdlEvent::ButtonDown { which: 7, button: sdl }, None),
            (SdlEvent::ButtonUp { which: 7, button: sdl }, None),
        ];
        assert_eq!(pull(&mut b, &mut queue), Some(event(7, EventKind::ButtonDown(button))));
        assert_eq!(pull(&mut b, &mut queue), Some(event(7, EventKind::ButtonUp(button))));
        assert_eq!(pull(&mut b, &mut queue), None);
    }
}

#[test]
fn every_sdl_axis_has_its_own_and_is_normalized() {
    let axes = [
        (SdlAxis::LeftX, Axis::LeftX),
        (SdlAxis::LeftY, Axis::LeftY),
        (SdlAxis::RightX, Axis::RightX),
        (SdlAxis::RightY, Axis::RightY),
        (SdlAxis::TriggerLeft, Axis::TriggerLeft),
        (SdlAxis::TriggerRight, Axis::TriggerRight),
    ];
    let mut b = live(vec![]);
    for (sdl, axis) in axes {
        assert_eq!(Axis::from_sdl(sdl), axis);
        let trigger = matches!(axis, Axis::TriggerLeft | Axis::TriggerRight);
        let lowest = if trigger { 0.0 } else { -1.0 };
        let below = if trigger { 0.0 } else { -1.0 / 32767.0 };
        for (raw, value) in [
            (0x7fff, 1.0_f32),
            (-0x8000, lowest),
            (-0x7fff, lowest),
            (-1, below),
            (0, 0.0),
            (12345, 12345.0 / 32767.0),
        ] {
            assert_eq!(axis_value(sdl, raw), Single { bits: value.to_bits() });
            let mut queue = vec![(SdlEvent::AxisMotion { which: 1, axis: sdl, value: raw }, None)];
            let value = Single { bits: value.to_bits() };
            assert_eq!(
                pull(&mut b, &mut queue),
                Some(event(1, EventKind::AxisMotion { axis, value }))
            );
        }
    }
}

#[test]
fn nothing_comes_where_anything_failed_to_start() {
    let down = SdlEvent::ButtonDown { which: 0, button: SdlButton::South };
    let startups: Vec<Option<Startup<Rc<u32>>>> = vec![
        None,
        Some(Startup { pump: false, listing: Ok(Some(vec![])) }),
        Some(Startup { pump: true, listing: Err("no gamepads".to_string()) }),
    ];
    for startup in startups {
        let mut b = Backend::default();
        assert_eq!(next_event(&mut b, Reply::Start), Step::Return(None));
        init(&mut b, startup);
        assert_eq!(next_event(&mut b, Reply::Start), Step::Return(None));
        assert_eq!(next_event(&mut b, Reply::Polled(Some(down))), Step::Return(None));
    }
    let mut b: Backend<Rc<u32>> = Backend::default();
    init(&mut b, Some(Startup { pump: true, listing: Ok(None) }));
    assert_eq!(next_event(&mut b, Reply::Start), Step::Poll);
}

#[test]
fn what_started_is_kept_when_the_rest_starts_later() {
    let mut b: Backend<Rc<u32>> = Backend::default();
    init(&mut b, Some(Startup { pump: true, listing: Err("not yet".to_string()) }));
    init(&mut b, Some(Startup { pump: false, listing: Ok(None) }));
    assert_eq!(next_event(&mut b, Reply::Start), Step::Poll);
}

#[test]
fn attached_devices_are_adopted_silently_and_held() {
    let pad = Rc::new(5);
    let mut b = live(vec![(5, Some(pad.clone())), (6, None)]);
    assert_eq!(Rc::strong_count(&pad), 2);
    assert_eq!(pull(&mut b, &mut vec![]), None);
    let again = Rc::new(55);
    let mut queue = vec![(SdlEvent::DeviceAdded { which: 5 }, Some(again.clone()))];
    assert_eq!(pull(&mut b, &mut queue), None);
    assert!(queue.is_empty());
    assert_eq!(Rc::strong_count(&pad), 2);
    assert_eq!(Rc::strong_count(&again), 1);
    let mut queue = vec![(SdlEvent::DeviceRemoved { which: 5 }, None)];
    assert_eq!(pull(&mut b, &mut queue), Some(event(5, EventKind::Disconnected)));
    assert_eq!(Rc::strong_count(&pad), 1);
}

#[test]
fn an_adopted_device_is_passed_over_until_it_comes_back() {
    let mut b = live(vec![(5, Some(Rc::new(5))), (6, None)]);
    let back = Rc::new(55);
    let mut queue = vec![
        (SdlEvent::DeviceAdded { which: 5 }, Some(Rc::new(5))),
        (SdlEvent::DeviceAdded { which: 6 }, Some(Rc::new(6))),
        (SdlEvent::DeviceAdded { which: 6 }, Some(Rc::new(6))),
        (SdlEvent::DeviceRemoved { which: 5 }, None),
        (SdlEvent::DeviceAdded { which: 5 }, Some(back.clone())),
    ];
    assert_eq!(pull(&mut b, &mut queue), Some(event(6, EventKind::Connected)));
    assert_eq!(queue.len(), 3);
    assert_eq!(pull(&mut b, &mut queue), Some(event(5, EventKind::Disconnected)));
    assert_eq!(pull(&mut b, &mut queue), Some(event(5, EventKind::Connected)));
    assert_eq!(Rc::strong_count(&back), 2);
    assert_eq!(pull(&mut b, &mut queue), None);
}

#[test]
fn a_device_that_is_open_is_not_opened_again() {
    let mut b = live(vec![(5, Some(Rc::new(5)))]);
    let added = |which| Reply::Polled(Some(SdlEvent::DeviceAdded { which }));
    assert_eq!(next_event(&mut b, added(5)), Step::Poll);
    assert_eq!(next_event(&mut b, added(6)), Step::Open(6));
}

#[test]
fn an_added_device_is_held_until_it_is_removed() {
    let pad = Rc::new(8);
    let mut b = live(vec![]);
    let mut queue = vec![
        (SdlEvent::Other, None),
        (SdlEvent::DeviceAdded { which: 8 }, Some(pad.clone())),
        (SdlEvent::DeviceRemoved { which: 8 }, None),
    ];
    assert_eq!(pull(&mut b, &mut queue), Some(event(8, EventKind::Connected)));
    assert_eq!(Rc::strong_count(&pad), 2);
    assert_eq!(queue.len(), 1);
    assert_eq!(pull(&mut b, &mut queue), Some(event(8, EventKind::Disconnected)));
    assert_eq!(Rc::strong_count(&pad), 1);
}

#[test]
fn a_device_that_cannot_be_opened_is_passed_over() {
    let mut b = live(vec![]);
    let mut queue = vec![
        (SdlEvent::Other, None),
        (SdlEvent::DeviceAdded { which: 1 }, None),
        (SdlEvent::Other, None),
        (SdlEvent::ButtonDown { which: 2, button: SdlButton::Touchpad }, None),
        (SdlEvent::Other, None),
        (SdlEvent::DeviceAdded { which: 3 }, None),
    ];
    assert_eq!(pull(&mut b, &mut queue), Some(event(2, EventKind::ButtonDown(Button::Touchpad))));
    assert_eq!(queue.len(), 2);
    assert_eq!(pull(&mut b, &mut queue), None);
    assert!(queue.is_empty());
}

#[test]
fn a_context_is_built_of_what_could_be_opened() {
    let first = Rc::new(1);
    let second = Rc::new(2);
    let listing = Ok(Some(vec![(1, Some(first.clone())), (2, None), (1, Some(second.clone()))]));
    let ctx = build_context(listing);
    assert!(ctx.is_ok());
    assert_eq!(Rc::strong_count(&first), 1);
    assert_eq!(Rc::strong_count(&second), 2);
    let failed = build_context::<Rc<u32>>(Err("no subsystem".to_string()));
    assert_eq!(failed.err(), Some("no subsystem".to_string()));
    assert!(build_context::<Rc<u32>>(Ok(None)).is_ok());
}

#[test]
fn the_application_is_named_in_the_hints() {
    assert_eq!(
        hints("MyApp"),
        vec![
            ("SDL_JOYSTICK_THREAD".to_string(), "1".to_string()),
            ("SDL_APP_NAME".to_string(), "MyApp".to_string()),
        ]
    );
}

#[test]
fn a_handle_is_kept_until_its_device_is_removed() {
    let pad = Rc::new(5);
    let mut b = live(vec![(5, Some(pad.clone()))]);
    let mut queue = vec![
        (SdlEvent::Other, None),
        (SdlEvent::DeviceAdded { which: 5 }, Some(Rc::new(50))),
        (SdlEvent::DeviceAdded { which: 6 }, Some(Rc::new(6))),
        (SdlEvent::ButtonUp { which: 5, button: SdlButton::Back }, None),
        (SdlEvent::DeviceRemoved { which: 6 }, None),
        (SdlEvent::Other, None),
        (SdlEvent::DeviceRemoved { which: 5 }, None),
    ];
    for kind in [
        event(6, EventKind::Connected),
        event(5, EventKind::ButtonUp(Button::Back)),
        event(6, EventKind::Disconnected),
    ] {
        assert_eq!(pull(&mut b, &mut queue), Some(kind));
        assert_eq!(Rc::strong_count(&pad), 2);
    }
    assert_eq!(pull(&mut b, &mut queue), Some(event(5, EventKind::Disconnected)));
    assert_eq!(Rc::strong_count(&pad), 1);
}
