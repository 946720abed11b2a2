use gamepad_facade::sdl::{SdlButton, SdlEvent, Startup};
use gamepad_facade::{
    init, next_event, select, stub, Backend, Button, Event, EventKind, Id, InitReply, InitStep,
    Reply, Step,
};

const NONE: Step = Step::Return { event: None, unmapped: None };

#[test]
fn the_target_and_the_feature_choose_the_backend() {
    assert!(matches!(select::<()>(true, true), Backend::Web(_)));
    assert!(matches!(select::<()>(true, false), Backend::Web(_)));
    assert!(matches!(select::<()>(false, true), Backend::Sdl3(_)));
    assert!(matches!(select::<()>(false, false), Backend::Stub));
}

#[test]
fn no_backend_has_events_before_it_is_started() {
    for (wasm32, sdl3) in [(true, true), (false, true), (false, false)] {
        let mut b = select::<()>(wasm32, sdl3);
        assert_eq!(next_event(&mut b, Reply::Start), NONE);
        assert_eq!(next_event(&mut b, Reply::Snapshot(Some(vec![]))), NONE);
        assert_eq!(next_event(&mut b, Reply::Polled(Some(SdlEvent::Other))), NONE);
        assert_eq!(next_event(&mut b, Reply::Opened { which: 0, pad: Some(()) }), NONE);
    }
}

#[test]
fn a_browser_is_probed_for_a_navigator() {
    let mut b = select::<()>(true, false);
    assert!(matches!(init(&mut b, "app", InitReply::Start), InitStep::ProbeNavigator));
    assert!(matches!(init(&mut b, "app", InitReply::Navigator(false)), InitStep::Done));
    assert_eq!(next_event(&mut b, Reply::Start), NONE);
    assert!(matches!(init(&mut b, "app", InitReply::Navigator(true)), InitStep::Done));
    assert_eq!(next_event(&mut b, Reply::Start), Step::TakeSnapshot);
    assert_eq!(next_event(&mut b, Reply::Polled(None)), NONE);
    assert_eq!(next_event(&mut b, Reply::Snapshot(Some(vec![]))), NONE);
}

#[test]
fn sdl_is_started_with_its_hints() {
    let mut b = select::<()>(false, true);
    match init(&mut b, "app", InitReply::Start) {
        InitStep::StartSdl { hints } => {
            assert_eq!(hints[1], ("SDL_APP_NAME".to_string(), "app".to_string()))
        }
        _ => panic!("SDL is to be started"),
    }
    assert!(matches!(init(&mut b, "app", InitReply::Sdl(None)), InitStep::Done));
    assert_eq!(next_event(&mut b, Reply::Start), NONE);
    let startup = Startup { pump: true, listing: Ok(None) };
    assert!(matches!(init(&mut b, "app", InitReply::Sdl(Some(startup))), InitStep::Done));
    assert_eq!(next_event(&mut b, Reply::Start), Step::Poll);
    let down = SdlEvent::ButtonDown { which: 4, button: SdlButton::Misc6 };
    assert_eq!(
        next_event(&mut b, Reply::Polled(Some(down))),
        Step::Return {
            event: Some(Event { id: Id(4), kind: EventKind::ButtonDown(Button::Misc6) }),
            unmapped: None
        }
    );
    let added = SdlEvent::DeviceAdded { which: 9 };
    assert_eq!(next_event(&mut b, Reply::Polled(Some(added))), Step::Open(9));
    assert_eq!(next_event(&mut b, Reply::Opened { which: 9, pad: None }), Step::Poll);
    assert_eq!(
        next_event(&mut b, Reply::Opened { which: 9, pad: Some(()) }),
        Step::Return {
            event: Some(Event { id: Id(9), kind: EventKind::Connected }),
            unmapped: None
        }
    );
    assert_eq!(next_event(&mut b, Reply::Snapshot(None)), NONE);
}

#[test]
fn without_sdl_there_are_no_gamepads() {
    let mut b = select::<()>(false, false);
    assert!(matches!(init(&mut b, "app", InitReply::Start), InitStep::Done));
    assert!(matches!(init(&mut b, "app", InitReply::Navigator(true)), InitStep::Done));
    assert_eq!(next_event(&mut b, Reply::Start), NONE);
    stub::init("app");
    assert_eq!(stub::next_event(), None);
}
