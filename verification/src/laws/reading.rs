//! What the browser backend makes of a snapshot, entry by entry.

use crate::ieee;
use crate::ieee::{Double, Single};
use crate::laws::mirror;
use crate::laws::numbers;
use crate::laws::values;
use crate::motion;
use crate::web;
use crate::web::{ButtonReading, PadModel, PadReading};
use crate::{Axis, Button, Event, EventKind, Id};
use vstd::arithmetic::power2::*;
use vstd::prelude::*;

verus! {

/// Where a browser has a button; negative for one that it does not have.
pub open spec fn button_index(button: Button) -> int {
    match button {
        Button::South => 0,
        Button::East => 1,
        Button::West => 2,
        Button::North => 3,
        Button::LeftShoulder => 4,
        Button::RightShoulder => 5,
        Button::Back => 8,
        Button::Start => 9,
        Button::LeftStick => 10,
        Button::RightStick => 11,
        Button::DPadUp => 12,
        Button::DPadDown => 13,
        Button::DPadLeft => 14,
        Button::DPadRight => 15,
        Button::Guide => 16,
        _ => -1,
    }
}

/// Where a browser has an axis: a trigger among the buttons, and a stick among
/// the axes.
pub open spec fn axis_index(axis: Axis) -> int {
    match axis {
        Axis::LeftX => 0,
        Axis::LeftY => 1,
        Axis::RightX => 2,
        Axis::RightY => 3,
        Axis::TriggerLeft => 6,
        Axis::TriggerRight => 7,
    }
}

/// Whether an axis is a trigger.
pub open spec fn is_trigger(axis: Axis) -> bool {
    axis == Axis::TriggerLeft || axis == Axis::TriggerRight
}

/// Where input on a pad comes among that of one snapshot: buttons, then
/// triggers, then sticks, each by their index; negative for what is no input.
pub open spec fn rank(kind: EventKind) -> int {
    match kind {
        EventKind::ButtonDown(button) => button_index(button),
        EventKind::ButtonUp(button) => button_index(button),
        EventKind::AxisMotion { axis, .. } => if is_trigger(axis) {
            100 + axis_index(axis)
        } else {
            200 + axis_index(axis)
        },
        _ => -1,
    }
}

/// Whether events are input on a pad with ranks between two bounds, and come in
/// the order of their ranks, each once.
pub open spec fn ranked(id: Id, events: Seq<Event>, lo: int, hi: int) -> bool {
    &&& forall|i: int|
        0 <= i < events.len() ==> (#[trigger] events[i]).id == id && lo <= rank(events[i].kind)
            < hi
    &&& forall|i: int, j: int|
        0 <= i < j < events.len() ==> rank((#[trigger] events[i]).kind) < rank(
            (#[trigger] events[j]).kind,
        )
}

/// Whether a button was down, where a pad had it.
pub open spec fn was_down(was: PadModel, i: int) -> bool {
    0 <= i < was.buttons.len() && was.buttons[i]
}

/// Whether two values are 1/512 apart or more, up to rounding.
pub open spec fn far(a: Single, b: Single) -> bool {
    ||| a.steps() - b.steps() >= pow2(140) - pow2(115)
    ||| b.steps() - a.steps() >= pow2(140) - pow2(115)
}

/// Whether a value is what a stick reading comes to: the closest one to it in
/// [-1, 1], with its sign.
pub open spec fn stick_reads(d: Double, v: Single) -> bool {
    &&& numbers::closest(
        v,
        numbers::clamped(numbers::exact(d), -pow2(1074), pow2(1074) as int),
        pow2(925) as int,
    )
    &&& v.bits >= 0x8000_0000 <==> d.bits >= 0x8000_0000_0000_0000
}

/// Whether a value is what a trigger reading comes to: the closest one to it in
/// [0, 1].
pub open spec fn trigger_reads(d: Double, v: Single) -> bool {
    &&& numbers::closest(
        v,
        numbers::clamped(numbers::exact(d), 0, pow2(1074) as int),
        pow2(925) as int,
    )
    &&& v.bits >= 0x8000_0000 <==> d.bits == 0x8000_0000_0000_0000
}

/// Whether a snapshot of a pad has a number for an axis.
pub open spec fn has_number(pad: PadReading, axis: Axis) -> bool {
    let i = axis_index(axis);
    if is_trigger(axis) {
        &&& i < pad.buttons@.len()
        &&& pad.buttons@[i] is Some
        &&& !pad.buttons@[i]->0.value.is_nan()
    } else {
        &&& i < pad.axes@.len()
        &&& pad.axes@[i] matches Some(d) ==> !d.is_nan()
    }
}

/// Whether a value is what a snapshot of a pad has for an axis. An entry of the
/// axes that holds no number at all reads as zero.
pub open spec fn reads(pad: PadReading, axis: Axis, v: Single) -> bool {
    let i = axis_index(axis);
    if is_trigger(axis) {
        trigger_reads(pad.buttons@[i]->0.value, v)
    } else {
        match pad.axes@[i] {
            Some(d) => stick_reads(d, v),
            None => v == Single { bits: 0 },
        }
    }
}

/// The value that a state has of an axis.
pub open spec fn kept(state: PadModel, axis: Axis) -> Single {
    if is_trigger(axis) {
        mirror::value_at(state.triggers, axis_index(axis))
    } else {
        mirror::value_at(state.axes, axis_index(axis))
    }
}

/// Whether events and a new state tell of a button what a snapshot says: an
/// entry for the button decides, by its flag alone, and without one nothing
/// changes.
pub open spec fn button_faithful(
    was: PadModel,
    id: Id,
    pad: PadReading,
    events: Seq<Event>,
    now: PadModel,
    button: Button,
) -> bool {
    let i = button_index(button);
    let down = events.contains(Event { id, kind: EventKind::ButtonDown(button) });
    let up = events.contains(Event { id, kind: EventKind::ButtonUp(button) });
    if 0 <= i < pad.buttons@.len() && pad.buttons@[i] is Some {
        let pressed = pad.buttons@[i]->0.pressed;
        &&& now.buttons[i] == pressed
        &&& down <==> pressed && !was_down(was, i)
        &&& up <==> !pressed && was_down(was, i)
    } else {
        &&& 0 <= i < pad.buttons@.len() ==> now.buttons[i] == was_down(was, i)
        &&& !down
        &&& !up
    }
}

/// Whether events and a new state tell of an axis what a snapshot says: it goes
/// to the value that the snapshot has, if there is one far enough from where it
/// was, and stays there otherwise.
pub open spec fn axis_faithful(
    was: PadModel,
    id: Id,
    pad: PadReading,
    events: Seq<Event>,
    now: PadModel,
    axis: Axis,
) -> bool {
    let slots = if is_trigger(axis) {
        pad.buttons@.len()
    } else {
        pad.axes@.len()
    };
    let old = kept(was, axis);
    ||| has_number(pad, axis) && exists|v: Single|
        {
            &&& #[trigger] reads(pad, axis, v)
            &&& far(v, old)
            &&& kept(now, axis) == v
            &&& forall|w: Single|
                events.contains(Event { id, kind: EventKind::AxisMotion { axis, value: w } })
                    <==> w == v
        }
    ||| {
        &&& has_number(pad, axis) ==> exists|v: Single| #[trigger]
            reads(pad, axis, v) && !far(v, old)
        &&& axis_index(axis) < slots ==> kept(now, axis) == old
        &&& forall|w: Single|
            !events.contains(Event { id, kind: EventKind::AxisMotion { axis, value: w } })
    }
}

/// Whether events and a new state are just what a snapshot of a pad calls for.
pub open spec fn faithful(
    was: PadModel,
    id: Id,
    pad: PadReading,
    events: Seq<Event>,
    now: PadModel,
) -> bool {
    &&& now.buttons.len() == pad.buttons@.len()
    &&& now.triggers.len() == pad.buttons@.len()
    &&& now.axes.len() == pad.axes@.len()
    &&& ranked(id, events, 0, 300)
    &&& forall|button: Button| #[trigger] button_faithful(was, id, pad, events, now, button)
    &&& forall|axis: Axis| #[trigger] axis_faithful(was, id, pad, events, now, axis)
}

proof fn lemma_concat_contains(a: Seq<Event>, b: Seq<Event>)
    ensures
        forall|e: Event| #[trigger] (a + b).contains(e) <==> a.contains(e) || b.contains(e),
{
    assert forall|e: Event| #[trigger] (a + b).contains(e) <==> a.contains(e) || b.contains(e) by {
        if a.contains(e) {
            let i = choose|i: int| 0 <= i < a.len() && a[i] == e;
            assert((a + b)[i] == e);
        }
        if b.contains(e) {
            let i = choose|i: int| 0 <= i < b.len() && b[i] == e;
            assert((a + b)[a.len() + i] == e);
        }
        if (a + b).contains(e) {
            let i = choose|i: int| 0 <= i < (a + b).len() && (a + b)[i] == e;
            if i < a.len() {
                assert(a[i] == e);
            } else {
                assert(b[i - a.len()] == e);
            }
        }
    }
}

proof fn lemma_ranked_concat(id: Id, a: Seq<Event>, b: Seq<Event>, lo: int, mid: int, hi: int)
    requires
        ranked(id, a, lo, mid),
        ranked(id, b, mid, hi),
        lo <= mid <= hi,
    ensures
        ranked(id, a + b, lo, hi),
{
    let c = a + b;
    assert forall|i: int| 0 <= i < c.len() implies (#[trigger] c[i]).id == id && lo <= rank(
        c[i].kind,
    ) < hi by {
        if i < a.len() {
            assert(c[i] == a[i]);
        } else {
            assert(c[i] == b[i - a.len()]);
        }
    }
    assert forall|i: int, j: int| 0 <= i < j < c.len() implies rank((#[trigger] c[i]).kind) < rank(
        (#[trigger] c[j]).kind,
    ) by {
        if j < a.len() {
            assert(c[i] == a[i] && c[j] == a[j]);
        } else if i < a.len() {
            assert(c[i] == a[i] && c[j] == b[j - a.len()]);
        } else {
            assert(c[i] == b[i - a.len()] && c[j] == b[j - a.len()]);
        }
    }
}

/// Whether an event is an edge of one of the first `n` buttons.
spec fn is_edge(
    id: Id,
    was: Seq<bool>,
    buttons: Seq<Option<ButtonReading>>,
    n: nat,
    e: Event,
) -> bool {
    &&& e.id == id
    &&& match e.kind {
        EventKind::ButtonDown(b) => {
            &&& 0 <= button_index(b) < n
            &&& web::pressed_at(buttons, button_index(b)) == Some(true)
            &&& !was[button_index(b)]
        },
        EventKind::ButtonUp(b) => {
            &&& 0 <= button_index(b) < n
            &&& web::pressed_at(buttons, button_index(b)) == Some(false)
            &&& was[button_index(b)]
        },
        _ => false,
    }
}

proof fn lemma_singleton(events: Seq<Event>, e: Event)
    requires
        events.len() <= 1,
    ensures
        events.contains(e) <==> events.len() == 1 && events[0] == e,
{
    if events.len() == 1 && events[0] == e {
        assert(events.contains(events[0]));
    }
}

proof fn lemma_edges(id: Id, was: Seq<bool>, buttons: Seq<Option<ButtonReading>>, n: nat)
    ensures
        forall|e: Event| #[trigger]
            web::edges(id, was, buttons, n).contains(e) <==> is_edge(id, was, buttons, n, e),
        ranked(id, web::edges(id, was, buttons, n), 0, n as int),
    decreases n,
{
    if n > 0 {
        let i = n - 1;
        let before = web::edges(id, was, buttons, i as nat);
        let edge = web::edge(id, was, buttons, i);
        lemma_edges(id, was, buttons, i as nat);
        lemma_concat_contains(before, edge);
        assert(ranked(id, edge, i, n as int));
        lemma_ranked_concat(id, before, edge, 0, i, n as int);
        assert forall|e: Event| #[trigger]
            web::edges(id, was, buttons, n).contains(e) <==> is_edge(id, was, buttons, n, e) by {
            lemma_singleton(edge, e);
            assert(before.contains(e) <==> is_edge(id, was, buttons, i as nat, e));
        }
    } else {
        assert forall|e: Event| !(#[trigger] web::edges(id, was, buttons, n).contains(e)) by {}
    }
}

/// Whether an event is a motion of one of the triggers among the first `n` buttons.
spec fn is_pull(
    id: Id,
    was: Seq<Single>,
    buttons: Seq<Option<ButtonReading>>,
    n: nat,
    e: Event,
) -> bool {
    &&& e.id == id
    &&& e.kind matches EventKind::AxisMotion { axis, value } && {
        &&& is_trigger(axis)
        &&& axis_index(axis) < n
        &&& web::trigger_at(buttons, axis_index(axis)) == Some(value)
        &&& motion::moved(value, was[axis_index(axis)])
    }
}

proof fn lemma_pulls(id: Id, was: Seq<Single>, buttons: Seq<Option<ButtonReading>>, n: nat)
    ensures
        forall|e: Event| #[trigger]
            web::trigger_motions(id, was, buttons, n).contains(e) <==> is_pull(
                id,
                was,
                buttons,
                n,
                e,
            ),
        ranked(id, web::trigger_motions(id, was, buttons, n), 100, 100 + n as int),
    decreases n,
{
    if n > 0 {
        let i = n - 1;
        let before = web::trigger_motions(id, was, buttons, i as nat);
        let motion = web::motion_of(
            id,
            web::trigger_axis_of(i),
            was[i],
            web::trigger_at(buttons, i),
        );
        lemma_pulls(id, was, buttons, i as nat);
        lemma_concat_contains(before, motion);
        assert(ranked(id, motion, 100 + i, 100 + n as int));
        lemma_ranked_concat(id, before, motion, 100, 100 + i, 100 + n as int);
        assert forall|e: Event| #[trigger]
            web::trigger_motions(id, was, buttons, n).contains(e) <==> is_pull(
                id,
                was,
                buttons,
                n,
                e,
            ) by {
            lemma_singleton(motion, e);
            assert(before.contains(e) <==> is_pull(id, was, buttons, i as nat, e));
        }
    } else {
        assert forall|e: Event| !(#[trigger] web::trigger_motions(id, was, buttons, n).contains(
            e,
        )) by {}
    }
}

/// Whether an event is a motion of one of the first `n` sticks.
spec fn is_push(id: Id, was: Seq<Single>, axes: Seq<Option<Double>>, n: nat, e: Event) -> bool {
    &&& e.id == id
    &&& e.kind matches EventKind::AxisMotion { axis, value } && {
        &&& !is_trigger(axis)
        &&& axis_index(axis) < n
        &&& web::stick_at(axes, axis_index(axis)) == Some(value)
        &&& motion::moved(value, was[axis_index(axis)])
    }
}

proof fn lemma_pushes(id: Id, was: Seq<Single>, axes: Seq<Option<Double>>, n: nat)
    ensures
        forall|e: Event| #[trigger]
            web::stick_motions(id, was, axes, n).contains(e) <==> is_push(id, was, axes, n, e),
        ranked(id, web::stick_motions(id, was, axes, n), 200, 200 + n as int),
    decreases n,
{
    if n > 0 {
        let i = n - 1;
        let before = web::stick_motions(id, was, axes, i as nat);
        let motion = web::motion_of(id, web::stick_axis_of(i), was[i], web::stick_at(axes, i));
        lemma_pushes(id, was, axes, i as nat);
        lemma_concat_contains(before, motion);
        assert(ranked(id, motion, 200 + i, 200 + n as int));
        lemma_ranked_concat(id, before, motion, 200, 200 + i, 200 + n as int);
        assert forall|e: Event| #[trigger]
            web::stick_motions(id, was, axes, n).contains(e) <==> is_push(id, was, axes, n, e) by {
            lemma_singleton(motion, e);
            assert(before.contains(e) <==> is_push(id, was, axes, i as nat, e));
        }
    } else {
        assert forall|e: Event| !(#[trigger] web::stick_motions(id, was, axes, n).contains(e)) by {}
    }
}

/// What a snapshot of a pad calls for is what happens: its buttons and axes are
/// taken over, each from its own entry, and just the changes are told, in their
/// order.
pub proof fn law_changes_are_faithful(was: PadModel, id: Id, pad: PadReading)
    requires
        was.wf(),
    ensures
        faithful(was, id, pad, was.changes(id, pad), was.after(pad)),
        was.after(pad).wf(),
{
    let fitted = was.fitted(pad);
    let now = was.after(pad);
    let a = web::edges(id, fitted.buttons, pad.buttons@, web::BUTTON_SLOTS as nat);
    let b = web::trigger_motions(id, fitted.triggers, pad.buttons@, web::BUTTON_SLOTS as nat);
    let c = web::stick_motions(id, fitted.axes, pad.axes@, web::AXIS_SLOTS as nat);
    let events = was.changes(id, pad);
    lemma_edges(id, fitted.buttons, pad.buttons@, web::BUTTON_SLOTS as nat);
    lemma_pulls(id, fitted.triggers, pad.buttons@, web::BUTTON_SLOTS as nat);
    lemma_pushes(id, fitted.axes, pad.axes@, web::AXIS_SLOTS as nat);
    lemma_concat_contains(a, b);
    lemma_concat_contains(a + b, c);
    assert(ranked(id, a, 0, 100));
    assert(ranked(id, b, 100, 200));
    assert(ranked(id, c, 200, 300));
    lemma_ranked_concat(id, a, b, 0, 100, 200);
    lemma_ranked_concat(id, a + b, c, 0, 200, 300);
    ieee::lemma_single(false, 0);
    assert forall|e: Event| #[trigger] events.contains(e) <==> a.contains(e) || b.contains(e)
        || c.contains(e) by {
        assert((a + b).contains(e) <==> a.contains(e) || b.contains(e));
        assert((a + b + c).contains(e) <==> (a + b).contains(e) || c.contains(e));
    }
    assert forall|button: Button| #[trigger] button_faithful(was, id, pad, events, now, button) by {
        let down = Event { id, kind: EventKind::ButtonDown(button) };
        let up = Event { id, kind: EventKind::ButtonUp(button) };
        assert(events.contains(down) <==> a.contains(down));
        assert(events.contains(up) <==> a.contains(up));
    }
    assert forall|axis: Axis| #[trigger] axis_faithful(was, id, pad, events, now, axis) by {
        lemma_axis_faithful(was, id, pad, axis);
        assert forall|w: Single| #[trigger] events.contains(
            Event { id, kind: EventKind::AxisMotion { axis, value: w } },
        ) <==> taken(pad, axis) == Some(w) && motion::moved(w, kept(fitted, axis)) by {
            let e = Event { id, kind: EventKind::AxisMotion { axis, value: w } };
            assert(events.contains(e) <==> b.contains(e) || c.contains(e));
        }
    }
    assert forall|i: int| 0 <= i < now.triggers.len() implies (
    #[trigger] now.triggers[i]).within_unit() by {
        if let Some(r) = web::reading_at(pad.buttons@, i) {
            values::law_triggers_in_range(r.value);
        }
    }
    assert forall|i: int| 0 <= i < now.axes.len() implies (#[trigger] now.axes[i]).within_one() by {
        if let Some(d) = pad.axes@[i] {
            values::law_sticks_in_range(d);
        }
    }
}

/// The value that a snapshot of a pad has for an axis.
spec fn taken(pad: PadReading, axis: Axis) -> Option<Single> {
    if is_trigger(axis) {
        web::trigger_at(pad.buttons@, axis_index(axis))
    } else {
        web::stick_at(pad.axes@, axis_index(axis))
    }
}

proof fn lemma_axis_faithful(was: PadModel, id: Id, pad: PadReading, axis: Axis)
    requires
        was.wf(),
    ensures
        ({
            let fitted = was.fitted(pad);
            let old = kept(fitted, axis);
            &&& has_number(pad, axis) ==> {
                &&& taken(pad, axis) matches Some(v) && reads(pad, axis, v)
                &&& kept(fitted, axis) == kept(was, axis)
                &&& motion::moved(taken(pad, axis)->0, old) == far(taken(pad, axis)->0, old)
            }
            &&& !has_number(pad, axis) ==> (taken(pad, axis) matches Some(v) ==> v.is_nan())
            &&& taken(pad, axis) is Some ==> kept(was.after(pad), axis) == if motion::moved(
                taken(pad, axis)->0,
                old,
            ) {
                taken(pad, axis)->0
            } else {
                old
            }
            &&& taken(pad, axis) is None ==> kept(was.after(pad), axis) == old
        }),
{
    let i = axis_index(axis);
    let old = kept(was, axis);
    ieee::lemma_single(false, 0);
    if is_trigger(axis) {
        assert(i < was.triggers.len() ==> was.triggers[i].within_unit());
        if let Some(r) = web::reading_at(pad.buttons@, i) {
            values::law_triggers_in_range(r.value);
            if !r.value.is_nan() {
                numbers::law_trigger_is_closest(r.value);
                numbers::law_motion_is_distance(ieee::trigger_of(r.value), old);
            }
        }
    } else {
        assert(i < was.axes.len() ==> was.axes[i].within_one());
        if i < pad.axes@.len() {
            match pad.axes@[i] {
                Some(d) => {
                    values::law_sticks_in_range(d);
                    if !d.is_nan() {
                        numbers::law_stick_is_closest(d);
                        numbers::law_motion_is_distance(ieee::stick_of(d), old);
                    }
                },
                None => {
                    numbers::law_motion_is_distance(Single { bits: 0 }, old);
                },
            }
        }
    }
}

proof fn lemma_motion_is_taken(was: PadModel, id: Id, pad: PadReading, axis: Axis, w: Single)
    requires
        was.changes(id, pad).contains(Event { id, kind: EventKind::AxisMotion { axis, value: w } }),
    ensures
        taken(pad, axis) == Some(w),
        !w.is_nan(),
{
    let fitted = was.fitted(pad);
    let a = web::edges(id, fitted.buttons, pad.buttons@, web::BUTTON_SLOTS as nat);
    let b = web::trigger_motions(id, fitted.triggers, pad.buttons@, web::BUTTON_SLOTS as nat);
    let c = web::stick_motions(id, fitted.axes, pad.axes@, web::AXIS_SLOTS as nat);
    let e = Event { id, kind: EventKind::AxisMotion { axis, value: w } };
    lemma_edges(id, fitted.buttons, pad.buttons@, web::BUTTON_SLOTS as nat);
    lemma_pulls(id, fitted.triggers, pad.buttons@, web::BUTTON_SLOTS as nat);
    lemma_pushes(id, fitted.axes, pad.axes@, web::AXIS_SLOTS as nat);
    lemma_concat_contains(a, b);
    lemma_concat_contains(a + b, c);
    assert((a + b + c).contains(e));
    assert((a + b).contains(e) || c.contains(e));
    assert(a.contains(e) || b.contains(e) || c.contains(e));
}

/// The number that a snapshot of a pad holds for an axis.
pub open spec fn number_of(pad: PadReading, axis: Axis) -> Double {
    if is_trigger(axis) {
        pad.buttons@[axis_index(axis)]->0.value
    } else {
        pad.axes@[axis_index(axis)]->0
    }
}

/// Whether a snapshot of a pad holds a number for an axis.
pub open spec fn holds_number(pad: PadReading, axis: Axis) -> bool {
    &&& has_number(pad, axis)
    &&& !is_trigger(axis) ==> pad.axes@[axis_index(axis)] is Some
}

/// Of two snapshots, the one with the larger number for an axis never has the
/// smaller value handed out for it, and no value has the other sign than its
/// number: up and left stay negative.
pub proof fn law_motions_keep_order_and_sign(
    was: PadModel,
    had: PadModel,
    id: Id,
    p: PadReading,
    q: PadReading,
    axis: Axis,
    v: Single,
    w: Single,
)
    requires
        holds_number(p, axis),
        holds_number(q, axis),
        was.changes(id, p).contains(Event { id, kind: EventKind::AxisMotion { axis, value: v } }),
        had.changes(id, q).contains(Event { id, kind: EventKind::AxisMotion { axis, value: w } }),
    ensures
        numbers::exact(number_of(p, axis)) <= numbers::exact(number_of(q, axis)) ==> v.steps()
            <= w.steps(),
        numbers::exact(number_of(p, axis)) <= 0 ==> v.steps() <= 0,
        numbers::exact(number_of(p, axis)) >= 0 ==> v.steps() >= 0,
{
    lemma_motion_is_taken(was, id, p, axis, v);
    lemma_motion_is_taken(had, id, q, axis, w);
    let (d, e) = (number_of(p, axis), number_of(q, axis));
    let zero = Double { bits: 0 };
    numbers::law_double_encoding(0);
    numbers::lemma_zero_reads_zero();
    if is_trigger(axis) {
        if numbers::exact(d) <= numbers::exact(e) {
            numbers::law_triggers_keep_order(d, e);
        }
        if numbers::exact(d) <= 0 {
            numbers::law_triggers_keep_order(d, zero);
        }
        if numbers::exact(d) >= 0 {
            numbers::law_triggers_keep_order(zero, d);
        }
    } else {
        if numbers::exact(d) <= numbers::exact(e) {
            numbers::law_sticks_keep_order(d, e);
        }
        if numbers::exact(d) <= 0 {
            numbers::law_sticks_keep_order(d, zero);
        }
        if numbers::exact(d) >= 0 {
            numbers::law_sticks_keep_order(zero, d);
        }
    }
}

/// What is read at an index is what the entry there says, and nothing past the
/// end: the flag of a button whatever its value, the value of a trigger whatever
/// its flag, and the number of a stick, or zero for an entry that holds none.
pub proof fn law_readings_are_their_entries(
    buttons: Seq<Option<ButtonReading>>,
    axes: Seq<Option<Double>>,
    i: int,
)
    requires
        i >= 0,
    ensures
        web::reading_at(buttons, i) == if i < buttons.len() {
            buttons[i]
        } else {
            None
        },
        web::pressed_at(buttons, i) is Some <==> i < buttons.len() && buttons[i] is Some,
        web::trigger_at(buttons, i) is Some <==> i < buttons.len() && buttons[i] is Some,
        i < buttons.len() && buttons[i] is Some ==> {
            let (r, v) = (buttons[i]->0, web::trigger_at(buttons, i)->0);
            &&& web::pressed_at(buttons, i) == Some(r.pressed)
            &&& v.is_nan() <==> r.value.is_nan()
            &&& !r.value.is_nan() ==> trigger_reads(r.value, v)
        },
        web::stick_at(axes, i) is Some <==> i < axes.len(),
        i < axes.len() ==> {
            let v = web::stick_at(axes, i)->0;
            match axes[i] {
                Some(d) => {
                    &&& v.is_nan() <==> d.is_nan()
                    &&& !d.is_nan() ==> stick_reads(d, v)
                },
                None => v == Single { bits: 0 },
            }
        },
{
    if i < buttons.len() && buttons[i] is Some {
        let d = buttons[i]->0.value;
        values::law_triggers_in_range(d);
        if !d.is_nan() {
            numbers::law_trigger_is_closest(d);
        }
    }
    if i < axes.len() && axes[i] is Some {
        let d = axes[i]->0;
        values::law_sticks_in_range(d);
        if !d.is_nan() {
            numbers::law_stick_is_closest(d);
        }
    }
}

} // verus!
