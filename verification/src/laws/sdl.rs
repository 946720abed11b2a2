//! What holds of the SDL3 backend.

use crate::ieee::Single;
use crate::laws::numbers;
use crate::laws::reading;
use crate::laws::values;
use crate::sdl;
use crate::sdl::{Model, Reply, SdlAxis, SdlButton, SdlEvent, Step};
use crate::{Axis, Button, Event, EventKind, Id};
use vstd::arithmetic::power2::*;
use vstd::prelude::*;

verus! {

/// No two of SDL's buttons, nor two of its axes, are the same here.
pub proof fn law_layout_is_one_to_one(b: SdlButton, c: SdlButton, x: SdlAxis, y: SdlAxis)
    ensures
        sdl::button_of(b) == sdl::button_of(c) ==> b == c,
        sdl::axis_of(x) == sdl::axis_of(y) ==> x == y,
{
}

/// SDL's button of the same name.
pub open spec fn sdl_button(button: Button) -> SdlButton {
    match button {
        Button::South => SdlButton::South,
        Button::East => SdlButton::East,
        Button::West => SdlButton::West,
        Button::North => SdlButton::North,
        Button::Back => SdlButton::Back,
        Button::Start => SdlButton::Start,
        Button::Guide => SdlButton::Guide,
        Button::LeftStick => SdlButton::LeftStick,
        Button::RightStick => SdlButton::RightStick,
        Button::LeftShoulder => SdlButton::LeftShoulder,
        Button::RightShoulder => SdlButton::RightShoulder,
        Button::DPadUp => SdlButton::DPadUp,
        Button::DPadDown => SdlButton::DPadDown,
        Button::DPadLeft => SdlButton::DPadLeft,
        Button::DPadRight => SdlButton::DPadRight,
        Button::Misc1 => SdlButton::Misc1,
        Button::Misc2 => SdlButton::Misc2,
        Button::Misc3 => SdlButton::Misc3,
        Button::Misc4 => SdlButton::Misc4,
        Button::Misc5 => SdlButton::Misc5,
        Button::Misc6 => SdlButton::Misc6,
        Button::RightPaddle1 => SdlButton::RightPaddle1,
        Button::LeftPaddle1 => SdlButton::LeftPaddle1,
        Button::RightPaddle2 => SdlButton::RightPaddle2,
        Button::LeftPaddle2 => SdlButton::LeftPaddle2,
        Button::Touchpad => SdlButton::Touchpad,
    }
}

/// SDL's axis of the same name.
pub open spec fn sdl_axis(axis: Axis) -> SdlAxis {
    match axis {
        Axis::LeftX => SdlAxis::LeftX,
        Axis::LeftY => SdlAxis::LeftY,
        Axis::RightX => SdlAxis::RightX,
        Axis::RightY => SdlAxis::RightY,
        Axis::TriggerLeft => SdlAxis::TriggerLeft,
        Axis::TriggerRight => SdlAxis::TriggerRight,
    }
}

/// Every button and every axis is one of SDL's.
pub proof fn law_layout_is_complete(button: Button, axis: Axis)
    ensures
        exists|b: SdlButton| sdl::button_of(b) == button,
        exists|a: SdlAxis| sdl::axis_of(a) == axis,
{
    assert(sdl::button_of(sdl_button(button)) == button);
    assert(sdl::axis_of(sdl_axis(axis)) == axis);
}

/// A press and a release are handed out for the device and the button of the
/// same name, whatever else is so, and change nothing.
pub proof fn law_buttons_are_reported<G>(m: Model<G>, which: u32, button: Button)
    requires
        m.pump,
        m.open is Some,
    ensures
        ({
            let down = Reply::Polled(
                Some(SdlEvent::ButtonDown { which, button: sdl_button(button) }),
            );
            let up = Reply::Polled(Some(SdlEvent::ButtonUp { which, button: sdl_button(button) }));
            &&& m.step(down) == Step::Return(
                Some(Event { id: Id(which), kind: EventKind::ButtonDown(button) }),
            )
            &&& m.step(up) == Step::Return(
                Some(Event { id: Id(which), kind: EventKind::ButtonUp(button) }),
            )
            &&& m.after(down) == m
            &&& m.after(up) == m
        }),
{
}

/// What a backend is brought with a raw reading of an axis.
pub open spec fn raw_motion<G>(which: u32, axis: Axis, raw: i16) -> Reply<G> {
    Reply::Polled(Some(SdlEvent::AxisMotion { which, axis: sdl_axis(axis), value: raw }))
}

/// The value that is handed out for a raw reading of an axis.
pub open spec fn reported<G>(m: Model<G>, which: u32, axis: Axis, raw: i16) -> Single {
    m.step(raw_motion(which, axis, raw))->Return_0->0.kind->value
}

/// A raw reading is handed out for the device and the axis of the same name, as
/// the value closest to its quotient by 0x7fff within [-1, 1], or within [0, 1]
/// for a trigger. It changes nothing.
pub proof fn law_axes_are_reported<G>(m: Model<G>, which: u32, axis: Axis, raw: i16)
    requires
        m.pump,
        m.open is Some,
    ensures
        ({
            let v = reported(m, which, axis, raw);
            let low: int = if reading::is_trigger(axis) {
                0
            } else {
                -0x7fff
            };
            &&& m.step(raw_motion(which, axis, raw)) == Step::Return(
                Some(Event { id: Id(which), kind: EventKind::AxisMotion { axis, value: v } }),
            )
            &&& m.after(raw_motion(which, axis, raw)) == m
            &&& numbers::closest(v, numbers::clamped(raw as int, low, 0x7fff) * pow2(149), 0x7fff)
            &&& v.bits >= 0x8000_0000 <==> raw < 0 && !reading::is_trigger(axis)
        }),
{
    numbers::law_normal_is_closest(raw);
    numbers::law_normal_is_closest(0);
}

/// Whatever the devices and the states, a larger reading of a stick is handed
/// out as a larger value, an opposite one as the opposite value, and only zero
/// as zero. The lowest reading is the exception: it is clamped to the one above
/// it. A trigger does so from zero on, and is at zero below.
pub proof fn law_readings_are_told_apart<G>(
    m: Model<G>,
    n: Model<G>,
    which: u32,
    other: u32,
    axis: Axis,
    a: i16,
    b: i16,
)
    requires
        m.pump,
        m.open is Some,
        n.pump,
        n.open is Some,
        a < b,
    ensures
        ({
            let (v, w) = (reported(m, which, axis, a).steps(), reported(n, other, axis, b).steps());
            &&& v <= w
            &&& !reading::is_trigger(axis) && a > -0x8000 ==> v < w
            &&& !reading::is_trigger(axis) && a > -0x8000 && b == -a ==> v == -w
            &&& reading::is_trigger(axis) && a >= 0 ==> v < w
            &&& reading::is_trigger(axis) && a <= 0 ==> v == 0
            &&& a == 0 ==> v == 0
            &&& b == 0 ==> w == 0
        }),
{
    values::law_raw_order_is_kept(a, b);
    numbers::law_raw_order_is_strict(0, 1);
    if a > -0x8000 {
        numbers::law_raw_order_is_strict(a, b);
        values::law_raw_readings_are_symmetric(a);
    }
    if b > 0 {
        values::law_raw_order_is_kept(0, b);
    }
}

/// A device is opened when it is added, unless it is open; its handle is kept
/// and its connection announced once it could be, and dropped and its
/// disconnection announced when it is removed.
pub proof fn law_devices_come_and_go<G>(m: Model<G>, which: u32, pad: G)
    requires
        m.pump,
        m.open is Some,
    ensures
        ({
            let added = Reply::Polled(Some(SdlEvent::DeviceAdded { which }));
            let removed = Reply::Polled(Some(SdlEvent::DeviceRemoved { which }));
            let opened = Reply::Opened { which, pad: Some(pad) };
            let failed = Reply::Opened { which, pad: None };
            &&& m.after(added) == m
            &&& m.step(added) == if m.open->0.contains_key(which) {
                Step::Poll
            } else {
                Step::Open(which)
            }
            &&& m.after(opened) == (Model { pump: true, open: Some(m.open->0.insert(which, pad)) })
            &&& m.step(opened) == Step::Return(
                Some(Event { id: Id(which), kind: EventKind::Connected }),
            )
            &&& m.after(failed) == m
            &&& m.step(failed) == Step::Poll
            &&& m.after(removed) == (Model { pump: true, open: Some(m.open->0.remove(which)) })
            &&& m.step(removed) == Step::Return(
                Some(Event { id: Id(which), kind: EventKind::Disconnected }),
            )
        }),
{
}

/// The pump is polled until it yields what matters or nothing; and nothing at
/// all is done without a pump, or without the gamepad subsystem.
pub proof fn law_the_pump_is_polled<G>(m: Model<G>, reply: Reply<G>)
    ensures
        m.pump && m.open is Some ==> {
            &&& m.step(Reply::Start) == Step::Poll
            &&& m.after(Reply::Start) == m
            &&& m.step(Reply::Polled(Some(SdlEvent::Other))) == Step::Poll
            &&& m.after(Reply::Polled(Some(SdlEvent::Other))) == m
            &&& m.step(Reply::Polled(None)) == Step::Return(None)
            &&& m.after(Reply::Polled(None)) == m
        },
        !(m.pump && m.open is Some) ==> m.step(reply) == Step::Return(None) && m.after(reply) == m,
{
}

/// Whether the entry of a listing is a device of this id that could be opened.
pub open spec fn opened<G>(attached: Seq<(u32, Option<G>)>, i: int, id: u32) -> bool {
    0 <= i < attached.len() && attached[i].0 == id && attached[i].1 is Some
}

/// Whether just the devices of a listing that could be opened are held, each by
/// the handle that it was opened with last.
pub open spec fn holds<G>(open: Map<u32, G>, attached: Seq<(u32, Option<G>)>) -> bool {
    &&& forall|k: u32| #[trigger]
        open.contains_key(k) <==> exists|i: int| #[trigger] opened(attached, i, k)
    &&& forall|k: u32, i: int| #[trigger]
        opened(attached, i, k) && (forall|j: int| i < j ==> !#[trigger] opened(attached, j, k))
            ==> open[k] == attached[i].1->0
}

/// All devices of a listing that could be opened are held.
pub proof fn law_listed_devices_are_held<G>(attached: Seq<(u32, Option<G>)>)
    ensures
        holds(sdl::adopted(attached), attached),
    decreases attached.len(),
{
    let open = sdl::adopted(attached);
    if attached.len() > 0 {
        let (done, last) = (attached.drop_last(), attached.len() - 1);
        let before = sdl::adopted(done);
        law_listed_devices_are_held(done);
        assert forall|i: int, k: u32| i < last implies opened(done, i, k) == #[trigger] opened(
            attached,
            i,
            k,
        ) by {}
        assert forall|k: u32| #[trigger]
            open.contains_key(k) <==> exists|i: int| #[trigger] opened(attached, i, k) by {
            if before.contains_key(k) {
                let i = choose|i: int| #[trigger] opened(done, i, k);
                assert(opened(attached, i, k));
            }
            if opened(attached, last, k) {
                assert(open.contains_key(k));
            }
            if exists|i: int| #[trigger] opened(attached, i, k) {
                let i = choose|i: int| #[trigger] opened(attached, i, k);
                if i < last {
                    assert(opened(done, i, k));
                }
            }
        }
        assert forall|k: u32, i: int| #[trigger]
            opened(attached, i, k) && (forall|j: int|
                i < j ==> !#[trigger] opened(attached, j, k)) implies open[k]
            == attached[i].1->0 by {
            if i < last {
                assert(!opened(attached, last, k));
                assert(opened(done, i, k));
                assert forall|j: int| i < j implies !#[trigger] opened(done, j, k) by {
                    assert(!opened(attached, j, k));
                }
                assert(before[k] == done[i].1->0);
            }
        }
    }
}

/// Starting leaves all devices held that were listed and could be opened, each
/// by its own handle. Without a listing none is, and what could not be started
/// stays as it was.
pub proof fn law_startup_holds_what_was_opened<G>(
    before: Model<G>,
    startup: Option<sdl::Startup<G>>,
)
    ensures
        startup is None ==> before.started(startup) == before,
        startup matches Some(s) ==> {
            let after = before.started(startup);
            &&& after.pump <==> before.pump || s.pump
            &&& s.listing is Err ==> after.open == before.open
            &&& s.listing matches Ok(None) ==> after.open == Some(Map::<u32, G>::empty())
            &&& s.listing matches Ok(Some(attached)) ==> after.open is Some && holds(
                after.open->0,
                attached@,
            )
        },
{
    if let Some(s) = startup {
        if let Ok(Some(attached)) = s.listing {
            law_listed_devices_are_held(attached@);
        }
    }
}

/// A connection is announced only with a handle held for it, and once a
/// disconnect is announced none is held. No other device's handle is touched.
pub proof fn law_announcements_are_backed<G>(m: Model<G>, reply: Reply<G>, event: Event)
    requires
        m.step(reply) == Step::Return(Some(event)),
    ensures
        m.after(reply).open is Some,
        event.kind is Connected ==> m.after(reply).open->0.contains_key(event.id.0),
        event.kind is Disconnected ==> !m.after(reply).open->0.contains_key(event.id.0),
        !(event.kind is Connected || event.kind is Disconnected) ==> m.after(reply) == m,
        forall|k: u32|
            k != event.id.0 ==> (#[trigger] m.after(reply).open->0.contains_key(k)
                == m.open->0.contains_key(k)) && (m.open->0.contains_key(k) ==> m.after(
                reply,
            ).open->0[k] == m.open->0[k]),
{
}

/// A device that could not be opened is not announced, and changes nothing.
pub proof fn law_failed_open_is_silent<G>(m: Model<G>, which: u32)
    requires
        m.live(),
    ensures
        m.step(Reply::Opened { which, pad: None }) == Step::Poll,
        m.after(Reply::Opened { which, pad: None }) == m,
{
}

/// A backend that is live stays so.
pub proof fn law_stays_live<G>(m: Model<G>, reply: Reply<G>)
    ensures
        m.after(reply).live() == m.live(),
{
}

/// Axis values lie in [-1, 1], and those of triggers in [0, 1], whatever the
/// reading.
pub proof fn law_axis_values_in_range<G>(m: Model<G>, which: u32, axis: SdlAxis, raw: i16)
    requires
        m.live(),
    ensures
        m.step(Reply::Polled(Some(SdlEvent::AxisMotion { which, axis, value: raw })))
            == Step::Return(
            Some(
                Event {
                    id: Id(which),
                    kind: EventKind::AxisMotion {
                        axis: sdl::axis_of(axis),
                        value: sdl::value_of(axis, raw),
                    },
                },
            ),
        ),
        sdl::value_of(axis, raw).within_one(),
        axis is TriggerLeft || axis is TriggerRight ==> sdl::value_of(axis, raw).within_unit(),
{
    values::law_normal_in_range(raw);
    values::law_normal_in_range(0);
}

/// What pulling one event off a queue comes to: [`sdl::next_event`] called
/// until it hands something out. Each queued event comes with the handle that
/// opening its device gives; `pad` is that of the one polled last. The result
/// is the state, the event, and what is left of the queue.
pub open spec fn pulled<G>(
    m: Model<G>,
    reply: Reply<G>,
    pad: Option<G>,
    queue: Seq<(SdlEvent, Option<G>)>,
) -> (Model<G>, Option<Event>, Seq<(SdlEvent, Option<G>)>)
    decreases
            queue.len(),
            match reply {
                Reply::Start => 2nat,
                Reply::Polled(Some(_)) => 2nat,
                Reply::Opened { .. } => 1nat,
                Reply::Polled(None) => 0nat,
            },
{
    let after = m.after(reply);
    match m.step(reply) {
        Step::Return(event) => (after, event, queue),
        Step::Open(which) => pulled(after, Reply::Opened { which, pad }, None, queue),
        Step::Poll => if queue.len() == 0 {
            pulled(after, Reply::Polled(None), None, queue)
        } else {
            pulled(after, Reply::Polled(Some(queue[0].0)), queue[0].1, queue.drop_first())
        },
    }
}

/// Whether a queued event is passed over: it is none of a gamepad's, or tells
/// that a device was added which is open already or can't be opened.
pub open spec fn silent<G>(m: Model<G>, entry: (SdlEvent, Option<G>)) -> bool {
    match entry.0 {
        SdlEvent::Other => true,
        SdlEvent::DeviceAdded { which } => m.open->0.contains_key(which) || entry.1 is None,
        _ => false,
    }
}

/// The event that is handed out for a queued one that is not passed over.
pub open spec fn handed_out<G>(entry: (SdlEvent, Option<G>)) -> Event {
    match entry.0 {
        SdlEvent::DeviceAdded { which } => Event { id: Id(which), kind: EventKind::Connected },
        event => sdl::event_of(event)->0,
    }
}

/// The state after a queued event that is not passed over.
pub open spec fn held_after<G>(m: Model<G>, entry: (SdlEvent, Option<G>)) -> Model<G> {
    match entry.0 {
        SdlEvent::DeviceAdded { which } => Model {
            open: Some(m.open->0.insert(which, entry.1->0)),
            ..m
        },
        SdlEvent::DeviceRemoved { which } => Model { open: Some(m.open->0.remove(which)), ..m },
        _ => m,
    }
}

/// Passing over an event leaves the pull where it started.
proof fn lemma_passed_over<G>(
    m: Model<G>,
    entry: (SdlEvent, Option<G>),
    rest: Seq<(SdlEvent, Option<G>)>,
)
    requires
        m.live(),
        silent(m, entry),
    ensures
        pulled(m, Reply::Polled(Some(entry.0)), entry.1, rest) == pulled(
            m,
            Reply::Start,
            None,
            rest,
        ),
{
    reveal_with_fuel(pulled, 3);
}

/// A pull hands out the first queued event that is not passed over, and takes
/// it and those before it off the queue; the rest stays for later pulls.
pub proof fn law_first_gamepad_event_is_pulled<G>(
    m: Model<G>,
    skipped: Seq<(SdlEvent, Option<G>)>,
    entry: (SdlEvent, Option<G>),
    rest: Seq<(SdlEvent, Option<G>)>,
)
    requires
        m.live(),
        forall|i: int| 0 <= i < skipped.len() ==> silent(m, #[trigger] skipped[i]),
        !silent(m, entry),
    ensures
        pulled(m, Reply::Start, None, skipped + seq![entry] + rest) == (
            held_after(m, entry),
            Some(handed_out(entry)),
            rest,
        ),
    decreases skipped.len(),
{
    let queue = skipped + seq![entry] + rest;
    if skipped.len() == 0 {
        assert(queue[0] == entry);
        assert(queue.drop_first() =~= rest);
        reveal_with_fuel(pulled, 3);
    } else {
        let fewer = skipped.drop_first();
        assert(queue[0] == skipped[0]);
        assert(queue.drop_first() =~= fewer + seq![entry] + rest);
        assert(silent(m, skipped[0]));
        assert forall|i: int| 0 <= i < fewer.len() implies silent(m, #[trigger] fewer[i]) by {
            assert(fewer[i] == skipped[i + 1]);
        }
        lemma_passed_over(m, skipped[0], queue.drop_first());
        law_first_gamepad_event_is_pulled(m, fewer, entry, rest);
    }
}

/// A pull that finds nothing but events to pass over takes them all off the
/// queue and hands out none.
pub proof fn law_drained_queue_pulls_nothing<G>(m: Model<G>, skipped: Seq<(SdlEvent, Option<G>)>)
    requires
        m.live(),
        forall|i: int| 0 <= i < skipped.len() ==> silent(m, #[trigger] skipped[i]),
    ensures
        pulled(m, Reply::Start, None, skipped) == (
            m,
            None::<Event>,
            Seq::<(SdlEvent, Option<G>)>::empty(),
        ),
    decreases skipped.len(),
{
    if skipped.len() == 0 {
        assert(skipped =~= Seq::empty());
        reveal_with_fuel(pulled, 3);
    } else {
        let fewer = skipped.drop_first();
        assert(silent(m, skipped[0]));
        assert forall|i: int| 0 <= i < fewer.len() implies silent(m, #[trigger] fewer[i]) by {
            assert(fewer[i] == skipped[i + 1]);
        }
        lemma_passed_over(m, skipped[0], fewer);
        law_drained_queue_pulls_nothing(m, fewer);
    }
}

/// A device that was attached at startup and could be opened is held open.
pub proof fn law_attached_devices_are_held<G>(attached: Seq<(u32, Option<G>)>, i: int)
    requires
        0 <= i < attached.len(),
        attached[i].1 is Some,
    ensures
        sdl::adopted(attached).contains_key(attached[i].0),
    decreases attached.len(),
{
    if i < attached.len() - 1 {
        law_attached_devices_are_held(attached.drop_last(), i);
    }
}

/// Whether a queued event tells that a device was added which is open already.
pub open spec fn repeats<G>(m: Model<G>, entry: (SdlEvent, Option<G>)) -> bool {
    entry.0 matches SdlEvent::DeviceAdded { which } && m.open->0.contains_key(which)
}

/// Devices that were attached at startup are adopted with no event, though SDL
/// reports them as added: a pull that finds nothing but such reports hands out
/// none and changes nothing.
pub proof fn law_adoption_is_silent<G>(
    before: Model<G>,
    startup: Option<sdl::Startup<G>>,
    queue: Seq<(SdlEvent, Option<G>)>,
)
    requires
        before.started(startup).live(),
        forall|i: int| 0 <= i < queue.len() ==> repeats(before.started(startup), #[trigger] queue[i]),
    ensures
        pulled(before.started(startup), Reply::Start, None, queue) == (
            before.started(startup),
            None::<Event>,
            Seq::<(SdlEvent, Option<G>)>::empty(),
        ),
{
    let m = before.started(startup);
    assert forall|i: int| 0 <= i < queue.len() implies silent(m, #[trigger] queue[i]) by {
        assert(repeats(m, queue[i]));
    }
    law_drained_queue_pulls_nothing(m, queue);
}

/// A connection is announced only of a device that was not open, whatever is
/// queued: so neither of one that was adopted at startup, nor twice of one that
/// was not removed in between.
pub proof fn law_open_devices_are_not_announced<G>(
    m: Model<G>,
    queue: Seq<(SdlEvent, Option<G>)>,
    event: Event,
)
    requires
        m.live(),
        pulled(m, Reply::Start, None, queue).1 == Some(event),
        event.kind is Connected,
    ensures
        !m.open->0.contains_key(event.id.0),
        pulled(m, Reply::Start, None, queue).0.open->0.contains_key(event.id.0),
    decreases queue.len(),
{
    if queue.len() == 0 {
        law_drained_queue_pulls_nothing(m, queue);
    } else {
        let (entry, rest) = (queue[0], queue.drop_first());
        if silent(m, entry) {
            lemma_passed_over(m, entry, rest);
            law_open_devices_are_not_announced(m, rest, event);
        } else {
            let none = Seq::<(SdlEvent, Option<G>)>::empty();
            assert(queue =~= none + seq![entry] + rest);
            law_first_gamepad_event_is_pulled(m, none, entry, rest);
        }
    }
}

/// Whether the last event that a pull took off a queue, leaving the rest, was
/// the removal of a device.
pub open spec fn removal_pulled<G>(
    queue: Seq<(SdlEvent, Option<G>)>,
    rest: Seq<(SdlEvent, Option<G>)>,
    which: u32,
) -> bool {
    &&& rest.len() < queue.len()
    &&& queue[queue.len() - rest.len() - 1].0 == (SdlEvent::DeviceRemoved { which })
}

/// The handle of an open device is kept through a pull, whatever is queued,
/// unless the pull took the device's removal off the queue. It is dropped then,
/// and the disconnect is what the pull hands out.
pub proof fn law_handles_are_kept<G>(
    m: Model<G>,
    queue: Seq<(SdlEvent, Option<G>)>,
    which: u32,
)
    requires
        m.live(),
        m.open->0.contains_key(which),
    ensures
        ({
            let (after, event, rest) = pulled(m, Reply::Start, None, queue);
            &&& after.live()
            &&& rest.len() <= queue.len()
            &&& rest == queue.skip(queue.len() - rest.len())
            &&& if removal_pulled(queue, rest, which) {
                &&& !after.open->0.contains_key(which)
                &&& event == Some(Event { id: Id(which), kind: EventKind::Disconnected })
            } else {
                &&& after.open->0.contains_key(which)
                &&& after.open->0[which] == m.open->0[which]
            }
        }),
    decreases queue.len(),
{
    if queue.len() == 0 {
        law_drained_queue_pulls_nothing(m, queue);
    } else {
        let (entry, tail) = (queue[0], queue.drop_first());
        if silent(m, entry) {
            lemma_passed_over(m, entry, tail);
            law_handles_are_kept(m, tail, which);
            let rest = pulled(m, Reply::Start, None, queue).2;
            assert(rest =~= queue.skip(queue.len() - rest.len()));
        } else {
            let none = Seq::<(SdlEvent, Option<G>)>::empty();
            assert(queue =~= none + seq![entry] + tail);
            law_first_gamepad_event_is_pulled(m, none, entry, tail);
            assert(tail =~= queue.skip(1));
        }
    }
}

} // verus!
