//! One gamepad-input API over two very different sources: SDL3 natively, and
//! the browser's Gamepad API in a wasm build.
//!
//! Callers see only [`Button`], [`Axis`], [`Id`] and [`Event`], and stay
//! oblivious to which backend is underneath.
//!
//! # Event model
//!
//! Input is a pull-based stream rather than a callback: [`next_event`] pops
//! one [`Event`] at a time, and every event is tagged with the [`Id`] it came
//! from. Connect and disconnect surface as their own [`EventKind`] variants.
//! Multiple pads are not coalesced into one logical controller.
//!
//! # Effects
//!
//! Nothing here talks to a browser or to SDL. [`init`] and [`next_event`] say
//! in their result what is to be done next, and are called again with what
//! came of it, until they are done.

pub mod ieee;
pub mod laws;
pub mod motion;
pub mod sdl;
pub mod stub;
pub mod web;

use crate::ieee::Single;
use crate::sdl::SdlEvent;
use crate::web::PadReading;
use vstd::prelude::*;

verus! {

/// A gamepad button.
///
/// Mirrors SDL3's standard layout one to one, which the browser's standard
/// mapping also follows. Beyond the usual face, shoulder and d-pad set this
/// covers the extras on fancier pads: the `Misc*` share and capture style
/// buttons, the four back paddles, and the touchpad click.
///
/// Triggers are not buttons here: they come through [`Axis::TriggerLeft`] and
/// [`Axis::TriggerRight`].
#[derive(Clone, Copy, Debug, PartialEq, Eq, Structural, Hash)]
pub enum Button {
    South,
    East,
    West,
    North,
    Back,
    Start,
    Guide,
    LeftStick,
    RightStick,
    LeftShoulder,
    RightShoulder,
    DPadUp,
    DPadDown,
    DPadLeft,
    DPadRight,
    Misc1,
    Misc2,
    Misc3,
    Misc4,
    Misc5,
    Misc6,
    RightPaddle1,
    LeftPaddle1,
    RightPaddle2,
    LeftPaddle2,
    Touchpad,
}

/// A gamepad analog axis. Stick values lie in [-1, 1], up and left being
/// negative, and trigger values in [0, 1].
#[derive(Clone, Copy, Debug, PartialEq, Eq, Structural, Hash)]
pub enum Axis {
    LeftX,
    LeftY,
    RightX,
    RightY,
    TriggerLeft,
    TriggerRight,
}

/// Opaque, per-connection identifier for a gamepad. Stable while a pad stays
/// plugged in, and reusable for a different physical pad after a disconnect.
///
/// Natively this is SDL's joystick instance id; in a browser it is the
/// gamepad's index.
#[derive(Clone, Copy, Debug, PartialEq, Eq, Structural, Hash, PartialOrd, Ord)]
pub struct Id(pub u32);

/// One gamepad event, tagged with the device it came from.
#[derive(Clone, Copy, Debug, PartialEq, Eq, Structural)]
pub struct Event {
    pub id: Id,
    pub kind: EventKind,
}

/// The narrow slice of gamepad input this crate emits.
#[derive(Clone, Copy, Debug, PartialEq, Eq, Structural)]
pub enum EventKind {
    /// A controller became available. Natively, those already attached at
    /// startup are adopted silently, with no event; in a browser, it is the
    /// first that is heard of a pad.
    Connected,
    /// A controller went away. Callers should drop any held state keyed on
    /// this device's `id` so its buttons don't read as still-down.
    Disconnected,
    ButtonDown(Button),
    ButtonUp(Button),
    AxisMotion { axis: Axis, value: Single },
}

/// The backend that is underneath. `G` is the type of SDL's device handles.
pub enum Backend<G> {
    Web(web::Backend),
    Sdl3(sdl::Backend<G>),
    Stub,
}

/// The model of a [`Backend`].
#[verifier::ext_equal]
pub enum Model<G> {
    Web(web::Model),
    Sdl3(sdl::Model<G>),
    Stub,
}

impl<G> View for Backend<G> {
    type V = Model<G>;

    open spec fn view(&self) -> Model<G> {
        match self {
            Backend::Web(b) => Model::Web(b@),
            Backend::Sdl3(b) => Model::Sdl3(b@),
            Backend::Stub => Model::Stub,
        }
    }
}

impl<G> Model<G> {
    /// What holds of a backend at all times.
    pub open spec fn wf(self) -> bool {
        match self {
            Model::Web(b) => b.wf(),
            _ => true,
        }
    }

    /// Whether the backend was started, and has gamepads to ask.
    pub open spec fn live(self) -> bool {
        match self {
            Model::Web(b) => b.live,
            Model::Sdl3(b) => b.live(),
            Model::Stub => false,
        }
    }

    /// The backend of a target, before it is started.
    pub open spec fn selected(wasm32: bool, sdl3: bool) -> Model<G> {
        if wasm32 {
            Model::Web(
                web::Model {
                    live: false,
                    pads: Map::empty(),
                    queue: Seq::empty(),
                    warned: false,
                },
            )
        } else if sdl3 {
            Model::Sdl3(sdl::Model { pump: false, open: None })
        } else {
            Model::Stub
        }
    }
}

/// Chooses the backend by target and feature: a browser has nothing else than
/// its own, and SDL3 can be left out of anything else.
pub fn select<G>(wasm32: bool, sdl3: bool) -> (r: Backend<G>)
    ensures
        r@ == Model::<G>::selected(wasm32, sdl3),
        r@.wf(),
        !r@.live(),
{
    if wasm32 {
        Backend::Web(web::Backend::default())
    } else if sdl3 {
        Backend::Sdl3(sdl::Backend::default())
    } else {
        Backend::Stub
    }
}

/// What is brought to [`init`].
pub enum InitReply<G> {
    /// Nothing yet: the backend is to be started.
    Start,
    /// Whether there is a navigator.
    Navigator(bool),
    /// What starting SDL gave, or none where it could not be started.
    Sdl(Option<sdl::Startup<G>>),
}

/// What [`init`] asks for.
pub enum InitStep {
    /// Look for a navigator, and bring whether there is one.
    ProbeNavigator,
    /// Give SDL these hints and start it, and bring what came of it.
    StartSdl { hints: Vec<(String, String)> },
    /// Nothing more.
    Done,
}

/// Whether these are the hints for an application of this name.
pub open spec fn names_application(hints: Seq<(String, String)>, app_name: Seq<char>) -> bool {
    &&& hints.len() == 2
    &&& hints[0].0@ == "SDL_JOYSTICK_THREAD"@
    &&& hints[0].1@ == "1"@
    &&& hints[1].0@ == "SDL_APP_NAME"@
    &&& hints[1].1@ == app_name
}

impl<G> Model<G> {
    /// The state after what is brought to [`init`].
    pub open spec fn started(self, reply: InitReply<G>) -> Model<G> {
        match (self, reply) {
            (Model::Web(b), InitReply::Navigator(navigator)) => Model::Web(
                web::Model { live: b.live || navigator, ..b },
            ),
            (Model::Sdl3(b), InitReply::Sdl(startup)) => Model::Sdl3(b.started(startup)),
            _ => self,
        }
    }
}

/// Starts the backend. Any failure turns later [`next_event`] calls into
/// no-ops: the application keeps running without gamepad support.
pub fn init<G>(backend: &mut Backend<G>, app_name: &str, reply: InitReply<G>) -> (step: InitStep)
    requires
        old(backend)@.wf(),
    ensures
        final(backend)@ == old(backend)@.started(reply),
        final(backend)@.wf(),
        match (old(backend)@, reply) {
            (Model::Web(_), InitReply::Start) => step is ProbeNavigator,
            (Model::Sdl3(_), InitReply::Start) => step matches InitStep::StartSdl { hints }
                && names_application(hints@, app_name@),
            _ => step is Done,
        },
{
    match backend {
        Backend::Web(b) => match reply {
            InitReply::Start => InitStep::ProbeNavigator,
            InitReply::Navigator(navigator) => {
                web::init(b, app_name, navigator);
                InitStep::Done
            },
            InitReply::Sdl(_) => InitStep::Done,
        },
        Backend::Sdl3(b) => match reply {
            InitReply::Start => InitStep::StartSdl { hints: sdl::hints(app_name) },
            InitReply::Sdl(startup) => {
                sdl::init(b, startup);
                InitStep::Done
            },
            InitReply::Navigator(_) => InitStep::Done,
        },
        Backend::Stub => {
            stub::init(app_name);
            InitStep::Done
        },
    }
}

/// What is brought to [`next_event`].
pub enum Reply<G> {
    /// Nothing yet: an event is asked for.
    Start,
    /// The snapshot that was asked for, or none where it could not be taken.
    Snapshot(Option<Vec<Option<PadReading>>>),
    /// What SDL's event pump yielded.
    Polled(Option<SdlEvent>),
    /// The handle of the device that was to be opened, or none where that failed.
    Opened { which: u32, pad: Option<G> },
}

/// What [`next_event`] asks for.
#[derive(Clone, Copy, Debug, PartialEq, Eq, Structural)]
pub enum Step {
    /// Take a snapshot of the browser's gamepads, and bring it.
    TakeSnapshot,
    /// Poll SDL's event pump, and bring what it yields.
    Poll,
    /// Open this device, and bring its handle.
    Open(u32),
    /// Hand out this event. Complain about this pad: it has no standard
    /// mapping, and its buttons and axes are read by raw index.
    Return { event: Option<Event>, unmapped: Option<u32> },
}

/// What a browser's backend is brought.
pub open spec fn web_reply<G>(reply: Reply<G>) -> Option<web::Reply> {
    match reply {
        Reply::Start => Some(web::Reply::Start),
        Reply::Snapshot(list) => Some(web::Reply::Snapshot(list)),
        _ => None,
    }
}

/// What SDL's backend is brought.
pub open spec fn sdl_reply<G>(reply: Reply<G>) -> Option<sdl::Reply<G>> {
    match reply {
        Reply::Start => Some(sdl::Reply::Start),
        Reply::Polled(event) => Some(sdl::Reply::Polled(event)),
        Reply::Opened { which, pad } => Some(sdl::Reply::Opened { which, pad }),
        _ => None,
    }
}

/// What a browser's backend asks for.
pub open spec fn web_step(step: web::Step) -> Step {
    match step {
        web::Step::TakeSnapshot => Step::TakeSnapshot,
        web::Step::Return { event, unmapped } => Step::Return { event, unmapped },
    }
}

/// What SDL's backend asks for.
pub open spec fn sdl_step(step: sdl::Step) -> Step {
    match step {
        sdl::Step::Poll => Step::Poll,
        sdl::Step::Open(which) => Step::Open(which),
        sdl::Step::Return(event) => Step::Return { event, unmapped: None },
    }
}

impl<G> Model<G> {
    /// Whether `after` and `step` may follow from what is brought. What is not
    /// meant for the backend underneath changes nothing.
    pub open spec fn answers(self, reply: Reply<G>, after: Model<G>, step: Step) -> bool {
        match (self, web_reply(reply), sdl_reply(reply)) {
            (Model::Web(b), Some(r), _) => exists|a: web::Model, s: web::Step|
                {
                    &&& #[trigger] b.answers(r, a, s)
                    &&& after == Model::<G>::Web(a)
                    &&& step == web_step(s)
                },
            (Model::Sdl3(b), _, Some(r)) => {
                &&& after == Model::Sdl3(b.after(r))
                &&& step == sdl_step(b.step(r))
            },
            _ => {
                &&& after == self
                &&& step == (Step::Return { event: None, unmapped: None })
            },
        }
    }
}

/// What a browser's backend asks for, put to the caller.
fn from_web(step: web::Step) -> (r: Step)
    ensures
        r == web_step(step),
{
    match step {
        web::Step::TakeSnapshot => Step::TakeSnapshot,
        web::Step::Return { event, unmapped } => Step::Return { event, unmapped },
    }
}

/// What SDL's backend asks for, put to the caller.
fn from_sdl(step: sdl::Step) -> (r: Step)
    ensures
        r == sdl_step(step),
{
    match step {
        sdl::Step::Poll => Step::Poll,
        sdl::Step::Open(which) => Step::Open(which),
        sdl::Step::Return(event) => Step::Return { event, unmapped: None },
    }
}

/// Pops the next gamepad event, or none once there is nothing left for now.
/// Always none if [`init`] never succeeded.
pub fn next_event<G>(backend: &mut Backend<G>, reply: Reply<G>) -> (step: Step)
    requires
        old(backend)@.wf(),
    ensures
        old(backend)@.answers(reply, final(backend)@, step),
        final(backend)@.wf(),
{
    match backend {
        Backend::Web(b) => match reply {
            Reply::Start => from_web(web::next_event(b, web::Reply::Start)),
            Reply::Snapshot(list) => from_web(web::next_event(b, web::Reply::Snapshot(list))),
            _ => Step::Return { event: None, unmapped: None },
        },
        Backend::Sdl3(b) => match reply {
            Reply::Start => from_sdl(sdl::next_event(b, sdl::Reply::Start)),
            Reply::Polled(event) => from_sdl(sdl::next_event(b, sdl::Reply::Polled(event))),
            Reply::Opened { which, pad } => from_sdl(
                sdl::next_event(b, sdl::Reply::Opened { which, pad }),
            ),
            Reply::Snapshot(_) => Step::Return { event: None, unmapped: None },
        },
        Backend::Stub => Step::Return { event: stub::next_event(), unmapped: None },
    }
}

} // verus!
