//! The SDL3 backend.
//!
//! SDL has a real event queue. What it yields is turned into this crate's
//! events here, one at a time, and the handles that keep devices open are
//! held here. `G` is the type of such a handle: a device whose handle is
//! dropped stops emitting events.

use crate::ieee;
use crate::ieee::Single;
use crate::{Axis, Button, Event, EventKind, Id};
use std::collections::HashMap;
use vstd::prelude::*;

verus! {

broadcast use vstd::std_specs::hash::group_hash_axioms;

/// SDL's gamepad buttons.
#[derive(Clone, Copy, Debug, PartialEq, Eq, Structural, Hash)]
pub enum SdlButton {
    South,
    East,
    West,
    North,
    Back,
    Start,
    Guide,
    LeftStick,
    RightStick,
    LeftShoulder,
    RightShoulder,
    DPadUp,
    DPadDown,
    DPadLeft,
    DPadRight,
    Misc1,
    Misc2,
    Misc3,
    Misc4,
    Misc5,
    Misc6,
    RightPaddle1,
    LeftPaddle1,
    RightPaddle2,
    LeftPaddle2,
    Touchpad,
}

/// SDL's gamepad axes.
#[derive(Clone, Copy, Debug, PartialEq, Eq, Structural, Hash)]
pub enum SdlAxis {
    LeftX,
    LeftY,
    RightX,
    RightY,
    TriggerLeft,
    TriggerRight,
}

/// An event of SDL's queue, as far as it matters here.
#[derive(Clone, Copy, Debug, PartialEq, Eq, Structural)]
pub enum SdlEvent {
    ButtonDown { which: u32, button: SdlButton },
    ButtonUp { which: u32, button: SdlButton },
    AxisMotion { which: u32, axis: SdlAxis, value: i16 },
    DeviceAdded { which: u32 },
    DeviceRemoved { which: u32 },
    /// Keyboard, mouse, window and all else.
    Other,
}

/// The button that one of SDL's is.
pub open spec fn button_of(b: SdlButton) -> Button {
    match b {
        SdlButton::South => Button::South,
        SdlButton::East => Button::East,
        SdlButton::West => Button::West,
        SdlButton::North => Button::North,
        SdlButton::Back => Button::Back,
        SdlButton::Start => Button::Start,
        SdlButton::Guide => Button::Guide,
        SdlButton::LeftStick => Button::LeftStick,
        SdlButton::RightStick => Button::RightStick,
        SdlButton::LeftShoulder => Button::LeftShoulder,
        SdlButton::RightShoulder => Button::RightShoulder,
        SdlButton::DPadUp => Button::DPadUp,
        SdlButton::DPadDown => Button::DPadDown,
        SdlButton::DPadLeft => Button::DPadLeft,
        SdlButton::DPadRight => Button::DPadRight,
        SdlButton::Misc1 => Button::Misc1,
        SdlButton::Misc2 => Button::Misc2,
        SdlButton::Misc3 => Button::Misc3,
        SdlButton::Misc4 => Button::Misc4,
        SdlButton::Misc5 => Button::Misc5,
        SdlButton::Misc6 => Button::Misc6,
        SdlButton::RightPaddle1 => Button::RightPaddle1,
        SdlButton::LeftPaddle1 => Button::LeftPaddle1,
        SdlButton::RightPaddle2 => Button::RightPaddle2,
        SdlButton::LeftPaddle2 => Button::LeftPaddle2,
        SdlButton::Touchpad => Button::Touchpad,
    }
}

/// The axis that one of SDL's is.
pub open spec fn axis_of(a: SdlAxis) -> Axis {
    match a {
        SdlAxis::LeftX => Axis::LeftX,
        SdlAxis::LeftY => Axis::LeftY,
        SdlAxis::RightX => Axis::RightX,
        SdlAxis::RightY => Axis::RightY,
        SdlAxis::TriggerLeft => Axis::TriggerLeft,
        SdlAxis::TriggerRight => Axis::TriggerRight,
    }
}

impl Button {
    /// The button that one of SDL's is.
    pub fn from_sdl(b: SdlButton) -> (r: Self)
        ensures
            r == button_of(b),
    {
        match b {
            SdlButton::South => Self::South,
            SdlButton::East => Self::East,
            SdlButton::West => Self::West,
            SdlButton::North => Self::North,
            SdlButton::Back => Self::Back,
            SdlButton::Start => Self::Start,
            SdlButton::Guide => Self::Guide,
            SdlButton::LeftStick => Self::LeftStick,
            SdlButton::RightStick => Self::RightStick,
            SdlButton::LeftShoulder => Self::LeftShoulder,
            SdlButton::RightShoulder => Self::RightShoulder,
            SdlButton::DPadUp => Self::DPadUp,
            SdlButton::DPadDown => Self::DPadDown,
            SdlButton::DPadLeft => Self::DPadLeft,
            SdlButton::DPadRight => Self::DPadRight,
            SdlButton::Misc1 => Self::Misc1,
            SdlButton::Misc2 => Self::Misc2,
            SdlButton::Misc3 => Self::Misc3,
            SdlButton::Misc4 => Self::Misc4,
            SdlButton::Misc5 => Self::Misc5,
            SdlButton::Misc6 => Self::Misc6,
            SdlButton::RightPaddle1 => Self::RightPaddle1,
            SdlButton::LeftPaddle1 => Self::LeftPaddle1,
            SdlButton::RightPaddle2 => Self::RightPaddle2,
            SdlButton::LeftPaddle2 => Self::LeftPaddle2,
            SdlButton::Touchpad => Self::Touchpad,
        }
    }
}

impl Axis {
    /// The axis that one of SDL's is.
    pub fn from_sdl(a: SdlAxis) -> (r: Self)
        ensures
            r == axis_of(a),
    {
        match a {
            SdlAxis::LeftX => Self::LeftX,
            SdlAxis::LeftY => Self::LeftY,
            SdlAxis::RightX => Self::RightX,
            SdlAxis::RightY => Self::RightY,
            SdlAxis::TriggerLeft => Self::TriggerLeft,
            SdlAxis::TriggerRight => Self::TriggerRight,
        }
    }
}

/// The value of an axis at a raw reading: a trigger's is not below zero, though
/// SDL's events can carry any signed reading of any axis.
pub open spec fn value_of(a: SdlAxis, raw: i16) -> Single {
    if (a is TriggerLeft || a is TriggerRight) && raw < 0 {
        ieee::normal_of(0)
    } else {
        ieee::normal_of(raw)
    }
}

/// Normalizes a raw reading of an axis: to [0, 1] for a trigger, and to [-1, 1]
/// for a stick, whose sign convention (up and left are negative) is left as it is.
pub fn axis_value(a: SdlAxis, raw: i16) -> (r: Single)
    ensures
        r == value_of(a, raw),
        r.within_one(),
        a is TriggerLeft || a is TriggerRight ==> r.within_unit(),
{
    match a {
        SdlAxis::TriggerLeft | SdlAxis::TriggerRight => ieee::normalize(
            if raw < 0 {
                0
            } else {
                raw
            },
        ),
        _ => ieee::normalize(raw),
    }
}

/// The currently open devices.
pub struct Context<G> {
    /// The handles, by the id that the events carry.
    open: HashMap<u32, G>,
}

impl<G> View for Context<G> {
    type V = Map<u32, G>;

    closed spec fn view(&self) -> Map<u32, G> {
        self.open@
    }
}

/// The handles held after the devices of a listing were opened in turn, those
/// that could be.
pub open spec fn adopted<G>(attached: Seq<(u32, Option<G>)>) -> Map<u32, G>
    decreases attached.len(),
{
    if attached.len() == 0 {
        Map::empty()
    } else {
        match attached.last().1 {
            Some(pad) => adopted(attached.drop_last()).insert(attached.last().0, pad),
            None => adopted(attached.drop_last()),
        }
    }
}

/// Builds the context from what starting the gamepad subsystem gave: an error,
/// or the devices attached at startup with their handles, as far as they could
/// be listed and opened.
pub fn build_context<G>(listing: Result<Option<Vec<(u32, Option<G>)>>, String>) -> (r: Result<
    Context<G>,
    String,
>)
    ensures
        match listing {
            Err(e) => r == Err::<Context<G>, String>(e),
            Ok(None) => r matches Ok(ctx) && ctx@ == Map::<u32, G>::empty(),
            Ok(Some(attached)) => r matches Ok(ctx) && ctx@ == adopted(attached@),
        },
{
    let attached: Option<Vec<(u32, Option<G>)>> = match listing {
        Ok(attached) => attached,
        Err(e) => return Err(e),
    };
    let mut ctx = Context { open: HashMap::new() };
    if let Some(attached) = attached {
        let ghost all = attached@;
        let ghost mut n: nat = 0;
        for entry in it: attached
            invariant
                it.seq() == all,
                n == it.index(),
                ctx.open@ == adopted(all.take(n as int)),
        {
            proof {
                assert(all.take(n as int + 1).drop_last() =~= all.take(n as int));
                n = n + 1;
            }
            let (id, opened): (u32, Option<G>) = entry;
            if let Some(pad) = opened {
                ctx.open.insert(id, pad);
            }
        }
        assert(all.take(n as int) =~= all);
    }
    Ok(ctx)
}

/// The state of the SDL3 backend.
pub struct Backend<G> {
    /// Whether there is an event pump to poll.
    pump: bool,
    /// The open devices, once the gamepad subsystem is up.
    context: Option<Context<G>>,
}

/// The model of a [`Backend`].
#[verifier::ext_equal]
pub struct Model<G> {
    pub pump: bool,
    pub open: Option<Map<u32, G>>,
}

impl<G> View for Backend<G> {
    type V = Model<G>;

    closed spec fn view(&self) -> Model<G> {
        Model {
            pump: self.pump,
            open: match self.context {
                Some(ctx) => Some(ctx@),
                None => None,
            },
        }
    }
}

impl<G> Default for Backend<G> {
    fn default() -> (r: Self)
        ensures
            r@ == (Model::<G> { pump: false, open: None }),
    {
        Backend { pump: false, context: None }
    }
}

/// The hints to give SDL before it starts, each a name and a value. There is
/// no video subsystem hooked into a message loop, so the joystick subsystem
/// needs a polling thread of its own; the application's name goes into things
/// like its D-Bus identity.
pub fn hints(app_name: &str) -> (r: Vec<(String, String)>)
    ensures
        r@.len() == 2,
        r@[0].0@ == "SDL_JOYSTICK_THREAD"@,
        r@[0].1@ == "1"@,
        r@[1].0@ == "SDL_APP_NAME"@,
        r@[1].1@ == app_name@,
{
    let mut r: Vec<(String, String)> = Vec::new();
    r.push(("SDL_JOYSTICK_THREAD".to_owned(), "1".to_owned()));
    r.push(("SDL_APP_NAME".to_owned(), app_name.to_owned()));
    r
}

/// What starting SDL gave.
pub struct Startup<G> {
    /// Whether there is an event pump.
    pub pump: bool,
    /// What starting the gamepad subsystem gave; see [`build_context`].
    pub listing: Result<Option<Vec<(u32, Option<G>)>>, String>,
}

impl<G> Model<G> {
    /// The state after SDL was started, or could not be.
    pub open spec fn started(self, startup: Option<Startup<G>>) -> Model<G> {
        match startup {
            None => self,
            Some(s) => Model {
                pump: self.pump || s.pump,
                open: match s.listing {
                    Err(_) => self.open,
                    Ok(None) => Some(Map::empty()),
                    Ok(Some(attached)) => Some(adopted(attached@)),
                },
            },
        }
    }
}

/// Takes over what starting SDL gave. The devices already attached are adopted
/// with no event. What failed stays missing, and the rest is kept.
pub fn init<G>(b: &mut Backend<G>, startup: Option<Startup<G>>)
    ensures
        final(b)@ == old(b)@.started(startup),
{
    if let Some(s) = startup {
        if s.pump {
            b.pump = true;
        }
        if let Ok(ctx) = build_context(s.listing) {
            b.context = Some(ctx);
        }
    }
}

/// What is brought to [`next_event`].
pub enum Reply<G> {
    /// Nothing yet: an event is asked for.
    Start,
    /// What the event pump yielded.
    Polled(Option<SdlEvent>),
    /// The handle of the device that was to be opened, or none where that failed.
    Opened { which: u32, pad: Option<G> },
}

/// What [`next_event`] asks for.
#[derive(Clone, Copy, Debug, PartialEq, Eq, Structural)]
pub enum Step {
    /// Poll the event pump, and bring what it yields.
    Poll,
    /// Open this device, and bring its handle.
    Open(u32),
    /// Hand out this event.
    Return(Option<Event>),
}

/// The event that one of SDL's is, where nothing has to be opened for it.
pub open spec fn event_of(event: SdlEvent) -> Option<Event> {
    match event {
        SdlEvent::ButtonDown { which, button } => Some(
            Event { id: Id(which), kind: EventKind::ButtonDown(button_of(button)) },
        ),
        SdlEvent::ButtonUp { which, button } => Some(
            Event { id: Id(which), kind: EventKind::ButtonUp(button_of(button)) },
        ),
        SdlEvent::AxisMotion { which, axis, value } => Some(
            Event {
                id: Id(which),
                kind: EventKind::AxisMotion { axis: axis_of(axis), value: value_of(axis, value) },
            },
        ),
        SdlEvent::DeviceRemoved { which } => Some(
            Event { id: Id(which), kind: EventKind::Disconnected },
        ),
        SdlEvent::DeviceAdded { .. } => None,
        SdlEvent::Other => None,
    }
}

impl<G> Model<G> {
    /// Whether there is anything to ask for events.
    pub open spec fn live(self) -> bool {
        self.pump && self.open is Some
    }

    /// The state after what is brought: a removed device's handle is dropped,
    /// and an opened one's is kept.
    pub open spec fn after(self, reply: Reply<G>) -> Model<G> {
        if !self.live() {
            self
        } else {
            match reply {
                Reply::Polled(Some(SdlEvent::DeviceRemoved { which })) => Model {
                    open: Some(self.open->0.remove(which)),
                    ..self
                },
                Reply::Opened { which, pad: Some(pad) } => Model {
                    open: Some(self.open->0.insert(which, pad)),
                    ..self
                },
                _ => self,
            }
        }
    }

    /// What is asked for after what is brought.
    pub open spec fn step(self, reply: Reply<G>) -> Step {
        if !self.live() {
            Step::Return(None)
        } else {
            match reply {
                Reply::Start => Step::Poll,
                Reply::Polled(None) => Step::Return(None),
                Reply::Polled(Some(SdlEvent::DeviceAdded { which })) => if self.open->0.contains_key(
                    which,
                ) {
                    Step::Poll
                } else {
                    Step::Open(which)
                },
                Reply::Polled(Some(event)) => match event_of(event) {
                    Some(event) => Step::Return(Some(event)),
                    None => Step::Poll,
                },
                Reply::Opened { which, pad: Some(_) } => Step::Return(
                    Some(Event { id: Id(which), kind: EventKind::Connected }),
                ),
                Reply::Opened { which: _, pad: None } => Step::Poll,
            }
        }
    }
}

/// Pops the next gamepad event from SDL's queue. Other events are skipped over
/// silently. A device that is added is opened, and one that can't be is not
/// announced, because no input will ever flow from it. One that is open already
/// is not announced either: SDL reports those attached at startup as added too,
/// and they were adopted silently. The handle of one that is removed is dropped.
pub fn next_event<G>(b: &mut Backend<G>, reply: Reply<G>) -> (step: Step)
    ensures
        final(b)@ == old(b)@.after(reply),
        step == old(b)@.step(reply),
{
    if !b.pump {
        return Step::Return(None);
    }
    let mut ctx = match b.context.take() {
        Some(ctx) => ctx,
        None => return Step::Return(None),
    };
    let step: Step = match reply {
        Reply::Start => Step::Poll,
        Reply::Polled(None) => Step::Return(None),
        Reply::Polled(Some(event)) => match event {
            SdlEvent::ButtonDown { which, button } => Step::Return(
                Some(
                    Event { id: Id(which), kind: EventKind::ButtonDown(Button::from_sdl(button)) },
                ),
            ),
            SdlEvent::ButtonUp { which, button } => Step::Return(
                Some(Event { id: Id(which), kind: EventKind::ButtonUp(Button::from_sdl(button)) }),
            ),
            SdlEvent::AxisMotion { which, axis, value } => Step::Return(
                Some(
                    Event {
                        id: Id(which),
                        kind: EventKind::AxisMotion {
                            axis: Axis::from_sdl(axis),
                            value: axis_value(axis, value),
                        },
                    },
                ),
            ),
            SdlEvent::DeviceAdded { which } => if ctx.open.contains_key(&which) {
                Step::Poll
            } else {
                Step::Open(which)
            },
            SdlEvent::DeviceRemoved { which } => {
                ctx.open.remove(&which);
                Step::Return(Some(Event { id: Id(which), kind: EventKind::Disconnected }))
            },
            SdlEvent::Other => Step::Poll,
        },
        Reply::Opened { which, pad: Some(pad) } => {
            ctx.open.insert(which, pad);
            Step::Return(Some(Event { id: Id(which), kind: EventKind::Connected }))
        },
        Reply::Opened { which: _, pad: None } => Step::Poll,
    };
    b.context = Some(ctx);
    step
}

} // verus!
