//! What a caller can tell of a pad from the events of the browser backend.

use crate::ieee::{Double, Single};
use crate::web;
use crate::web::{ButtonReading, Model, PadModel, PadReading, Reply, Step};
use crate::{Axis, Button, Event, EventKind, Id};
use vstd::prelude::*;

verus! {

/// What a caller keeps of a pad: the buttons that are down, and where the axes
/// are.
#[verifier::ext_equal]
pub struct Held {
    pub down: Set<Button>,
    pub at: Map<Axis, Single>,
}

impl Held {
    /// A pad of which nothing was heard: no button is down, and every axis is
    /// at zero.
    pub open spec fn nothing() -> Held {
        Held { down: Set::empty(), at: Map::total(|axis: Axis| Single { bits: 0 }) }
    }

    /// What is kept after one more event of the pad.
    pub open spec fn after(self, kind: EventKind) -> Held {
        match kind {
            EventKind::Connected => Held::nothing(),
            EventKind::Disconnected => Held::nothing(),
            EventKind::ButtonDown(button) => Held { down: self.down.insert(button), ..self },
            EventKind::ButtonUp(button) => Held { down: self.down.remove(button), ..self },
            EventKind::AxisMotion { axis, value } => Held {
                at: self.at.insert(axis, value),
                ..self
            },
        }
    }

    /// What is kept of a pad after some events, of it and of others.
    pub open spec fn after_all(self, index: u32, events: Seq<Event>) -> Held
        decreases events.len(),
    {
        if events.len() == 0 {
            self
        } else {
            let before = self.after_all(index, events.drop_last());
            if events.last().id.0 == index {
                before.after(events.last().kind)
            } else {
                before
            }
        }
    }
}

/// Whether the button at an index is this one, and down.
pub open spec fn down_at(buttons: Seq<bool>, i: int, button: Button) -> bool {
    0 <= i < buttons.len() && buttons[i] && web::button_of(i) == Some(button)
}

/// The value at an index, zero where there is none.
pub open spec fn value_at(values: Seq<Single>, i: int) -> Single {
    if 0 <= i < values.len() {
        values[i]
    } else {
        Single { bits: 0 }
    }
}

/// The value that the state of a pad has of an axis.
pub open spec fn axis_at(state: PadModel, axis: Axis) -> Single {
    match axis {
        Axis::LeftX => value_at(state.axes, 0),
        Axis::LeftY => value_at(state.axes, 1),
        Axis::RightX => value_at(state.axes, 2),
        Axis::RightY => value_at(state.axes, 3),
        Axis::TriggerLeft => value_at(state.triggers, 6),
        Axis::TriggerRight => value_at(state.triggers, 7),
    }
}

/// What the backend's state of a pad amounts to.
pub open spec fn held_by(state: PadModel) -> Held {
    Held {
        down: Set::new(|button: Button| exists|i: int| #[trigger] down_at(state.buttons, i, button)),
        at: Map::total(|axis: Axis| axis_at(state, axis)),
    }
}

/// Whether a snapshot has every control that is not at rest. One that it is
/// short of is forgotten with no event.
pub open spec fn keeps_all(state: PadModel, pad: PadReading) -> bool {
    held_by(state.fitted(pad)) == held_by(state)
}

proof fn lemma_after_all_concat(held: Held, index: u32, a: Seq<Event>, b: Seq<Event>)
    ensures
        held.after_all(index, a + b) == held.after_all(index, a).after_all(index, b),
    decreases b.len(),
{
    if b.len() == 0 {
        assert(a + b =~= a);
    } else {
        assert((a + b).drop_last() =~= a + b.drop_last());
        lemma_after_all_concat(held, index, a, b.drop_last());
    }
}

proof fn lemma_after_one(held: Held, index: u32, event: Event)
    ensures
        held.after_all(index, seq![event]) == if event.id.0 == index {
            held.after(event.kind)
        } else {
            held
        },
{
    reveal_with_fuel(Held::after_all, 2);
    assert(seq![event].drop_last() =~= Seq::empty());
}

/// A sequence of which the first `n` items are those of another one.
spec fn upto<A>(was: Seq<A>, now: Seq<A>, n: nat) -> Seq<A> {
    Seq::new(
        was.len(),
        |i: int|
            if i < n {
                now[i]
            } else {
                was[i]
            },
    )
}

/// Setting one button sets whether that one is down, and nothing else.
proof fn lemma_set_button(state: PadModel, i: int, button: Button, pressed: bool)
    requires
        0 <= i < state.buttons.len(),
        web::button_of(i) == Some(button),
    ensures
        ({
            let set = PadModel { buttons: state.buttons.update(i, pressed), ..state };
            held_by(set) == (Held {
                down: if pressed {
                    held_by(state).down.insert(button)
                } else {
                    held_by(state).down.remove(button)
                },
                ..held_by(state)
            })
        }),
{
    let set = PadModel { buttons: state.buttons.update(i, pressed), ..state };
    let (before, after) = (held_by(state).down, held_by(set).down);
    assert forall|b: Button| b != button implies after.contains(b) == before.contains(b) by {
        if before.contains(b) {
            let j = choose|j: int| #[trigger] down_at(state.buttons, j, b);
            assert(down_at(set.buttons, j, b));
        }
        if after.contains(b) {
            let j = choose|j: int| #[trigger] down_at(set.buttons, j, b);
            assert(down_at(state.buttons, j, b));
        }
    }
    assert(after.contains(button) == pressed) by {
        if pressed {
            assert(down_at(set.buttons, i, button));
        } else if after.contains(button) {
            let j = choose|j: int| #[trigger] down_at(set.buttons, j, button);
            assert(j == i);
        }
    }
    assert(after =~= if pressed {
        before.insert(button)
    } else {
        before.remove(button)
    });
    assert(held_by(set).at =~= held_by(state).at);
}

proof fn lemma_edges_mirrored(
    index: u32,
    state: PadModel,
    buttons: Seq<Option<ButtonReading>>,
    n: nat,
)
    requires
        state.buttons.len() == buttons.len(),
    ensures
        held_by(state).after_all(index, web::edges(Id(index), state.buttons, buttons, n))
            == held_by(
            PadModel {
                buttons: upto(state.buttons, web::pressed_after(state.buttons, buttons), n),
                ..state
            },
        ),
    decreases n,
{
    let was = state.buttons;
    let now = web::pressed_after(was, buttons);
    if n == 0 {
        assert(upto(was, now, n) =~= was);
    } else {
        let i = n - 1;
        let before = PadModel { buttons: upto(was, now, i as nat), ..state };
        let edge = web::edge(Id(index), was, buttons, i);
        lemma_edges_mirrored(index, state, buttons, i as nat);
        lemma_after_all_concat(
            held_by(state),
            index,
            web::edges(Id(index), was, buttons, i as nat),
            edge,
        );
        if edge.len() == 0 {
            assert(upto(was, now, n) =~= upto(was, now, i as nat));
        } else {
            let button = web::button_of(i)->0;
            let pressed = web::pressed_at(buttons, i)->0;
            assert(edge =~= seq![edge[0]]);
            lemma_after_one(held_by(before), index, edge[0]);
            lemma_set_button(before, i, button, pressed);
            assert(upto(was, now, n) =~= before.buttons.update(i, pressed));
        }
    }
}

proof fn lemma_triggers_mirrored(
    index: u32,
    state: PadModel,
    buttons: Seq<Option<ButtonReading>>,
    n: nat,
)
    requires
        state.triggers.len() == buttons.len(),
    ensures
        held_by(state).after_all(
            index,
            web::trigger_motions(Id(index), state.triggers, buttons, n),
        ) == held_by(
            PadModel {
                triggers: upto(state.triggers, web::triggers_after(state.triggers, buttons), n),
                ..state
            },
        ),
    decreases n,
{
    let was = state.triggers;
    let now = web::triggers_after(was, buttons);
    if n == 0 {
        assert(upto(was, now, n) =~= was);
    } else {
        let i = n - 1;
        let before = PadModel { triggers: upto(was, now, i as nat), ..state };
        let after = PadModel { triggers: upto(was, now, n), ..state };
        let motion = web::motion_of(
            Id(index),
            web::trigger_axis_of(i),
            was[i],
            web::trigger_at(buttons, i),
        );
        lemma_triggers_mirrored(index, state, buttons, i as nat);
        lemma_after_all_concat(
            held_by(state),
            index,
            web::trigger_motions(Id(index), was, buttons, i as nat),
            motion,
        );
        if motion.len() == 0 {
            assert(after.triggers =~= before.triggers);
        } else {
            let axis = web::trigger_axis_of(i)->0;
            let value = web::trigger_at(buttons, i)->0;
            assert(motion =~= seq![motion[0]]);
            lemma_after_one(held_by(before), index, motion[0]);
            assert(after.triggers =~= before.triggers.update(i, value));
            assert(held_by(after).at =~= held_by(before).at.insert(axis, value));
            assert(held_by(after).down =~= held_by(before).down);
        }
    }
}

proof fn lemma_sticks_mirrored(
    index: u32,
    state: PadModel,
    axes: Seq<Option<Double>>,
    n: nat,
)
    requires
        state.axes.len() == axes.len(),
    ensures
        held_by(state).after_all(index, web::stick_motions(Id(index), state.axes, axes, n))
            == held_by(
            PadModel { axes: upto(state.axes, web::sticks_after(state.axes, axes), n), ..state },
        ),
    decreases n,
{
    let was = state.axes;
    let now = web::sticks_after(was, axes);
    if n == 0 {
        assert(upto(was, now, n) =~= was);
    } else {
        let i = n - 1;
        let before = PadModel { axes: upto(was, now, i as nat), ..state };
        let after = PadModel { axes: upto(was, now, n), ..state };
        let motion = web::motion_of(
            Id(index),
            web::stick_axis_of(i),
            was[i],
            web::stick_at(axes, i),
        );
        lemma_sticks_mirrored(index, state, axes, i as nat);
        lemma_after_all_concat(
            held_by(state),
            index,
            web::stick_motions(Id(index), was, axes, i as nat),
            motion,
        );
        if motion.len() == 0 {
            assert(after.axes =~= before.axes);
        } else {
            let axis = web::stick_axis_of(i)->0;
            let value = web::stick_at(axes, i)->0;
            assert(motion =~= seq![motion[0]]);
            lemma_after_one(held_by(before), index, motion[0]);
            assert(after.axes =~= before.axes.update(i, value));
            assert(held_by(after).at =~= held_by(before).at.insert(axis, value));
            assert(held_by(after).down =~= held_by(before).down);
        }
    }
}

/// Past the standard mapping's indices nothing changes.
proof fn lemma_upto_slots(was: PadModel, pad: PadReading)
    requires
        was == was.fitted(pad),
    ensures
        upto(
            was.buttons,
            web::pressed_after(was.buttons, pad.buttons@),
            web::BUTTON_SLOTS as nat,
        ) == was.after(pad).buttons,
        upto(
            was.triggers,
            web::triggers_after(was.triggers, pad.buttons@),
            web::BUTTON_SLOTS as nat,
        ) == was.after(pad).triggers,
        upto(was.axes, web::sticks_after(was.axes, pad.axes@), web::AXIS_SLOTS as nat)
            == was.after(pad).axes,
{
    let after = was.after(pad);
    assert(upto(
        was.buttons,
        web::pressed_after(was.buttons, pad.buttons@),
        web::BUTTON_SLOTS as nat,
    ) =~= after.buttons);
    assert(upto(
        was.triggers,
        web::triggers_after(was.triggers, pad.buttons@),
        web::BUTTON_SLOTS as nat,
    ) =~= after.triggers);
    assert(upto(was.axes, web::sticks_after(was.axes, pad.axes@), web::AXIS_SLOTS as nat)
        =~= after.axes);
}

/// The changes that a snapshot of a pad gives rise to take a caller from what
/// the state amounted to before to what it amounts to after: the edges and
/// motions tell everything.
pub proof fn law_changes_tell_all(was: PadModel, index: u32, pad: PadReading)
    requires
        keeps_all(was, pad),
    ensures
        held_by(was).after_all(index, was.changes(Id(index), pad)) == held_by(was.after(pad)),
{
    let id = Id(index);
    let fitted = was.fitted(pad);
    let after = was.after(pad);
    let a = web::edges(id, fitted.buttons, pad.buttons@, web::BUTTON_SLOTS as nat);
    let b = web::trigger_motions(id, fitted.triggers, pad.buttons@, web::BUTTON_SLOTS as nat);
    let c = web::stick_motions(id, fitted.axes, pad.axes@, web::AXIS_SLOTS as nat);
    let s1 = PadModel { buttons: after.buttons, ..fitted };
    let s2 = PadModel { triggers: after.triggers, ..s1 };
    assert(fitted.fitted(pad) =~= fitted);
    lemma_upto_slots(fitted, pad);
    lemma_edges_mirrored(index, fitted, pad.buttons@, web::BUTTON_SLOTS as nat);
    lemma_triggers_mirrored(index, s1, pad.buttons@, web::BUTTON_SLOTS as nat);
    lemma_sticks_mirrored(index, s2, pad.axes@, web::AXIS_SLOTS as nat);
    lemma_after_all_concat(held_by(was), index, a, b);
    lemma_after_all_concat(held_by(was), index, a + b, c);
}

/// Whether a caller that keeps `held` of a pad will, once it was handed all
/// that is queued, keep what the backend's state amounts to.
pub open spec fn mirrors(held: Held, index: u32, m: Model) -> bool {
    held.after_all(index, m.queue) == held_by(m.pad(index))
}

/// Whether the entries of a snapshot, taken over in turn, each have every
/// control of the pad that is not at rest.
pub open spec fn keeps_all_of(m: Model, list: Seq<Option<PadReading>>, index: u32) -> bool {
    forall|n: int|
        0 <= n < list.len() ==> (#[trigger] web::present(list[n]) matches Some(pad) ==> (pad.index
            == index ==> keeps_all(m.observed_all(list.take(n)).pad(index), pad)))
}

/// Of a pad that has not been seen yet nothing is held.
pub proof fn lemma_nothing_held_of_fresh()
    ensures
        held_by(PadModel::fresh()) == Held::nothing(),
{
    assert(held_by(PadModel::fresh()).down =~= Set::empty());
    assert(held_by(PadModel::fresh()).at =~= Held::nothing().at);
}

proof fn lemma_others_tell_nothing(held: Held, index: u32, events: Seq<Event>)
    requires
        forall|i: int| 0 <= i < events.len() ==> (#[trigger] events[i]).id.0 != index,
    ensures
        held.after_all(index, events) == held,
    decreases events.len(),
{
    if events.len() > 0 {
        let before = events.drop_last();
        assert forall|i: int| 0 <= i < before.len() implies (#[trigger] before[i]).id.0
            != index by {
            assert(before[i] == events[i]);
        }
        lemma_others_tell_nothing(held, index, before);
        assert(events[events.len() - 1].id.0 != index);
    }
}

proof fn lemma_observed_mirrored(held: Held, index: u32, m: Model, entry: Option<PadReading>)
    requires
        mirrors(held, index, m),
        web::present(entry) matches Some(pad) ==> (pad.index == index ==> keeps_all(
            m.pad(index),
            pad,
        )),
    ensures
        mirrors(held, index, m.observed(entry)),
{
    if let Some(pad) = web::present(entry) {
        let greeted = m.greeted(pad.index);
        lemma_nothing_held_of_fresh();
        assert(greeted.pad(pad.index) == m.pad(pad.index));
        assert(mirrors(held, index, greeted)) by {
            if !m.pads.contains_key(pad.index) {
                let event = Event { id: Id(pad.index), kind: EventKind::Connected };
                assert(greeted.queue =~= m.queue + seq![event]);
                lemma_after_all_concat(held, index, m.queue, seq![event]);
                lemma_after_one(held.after_all(index, m.queue), index, event);
            }
        }
        let changes = m.pad(pad.index).changes(Id(pad.index), pad);
        lemma_after_all_concat(held, index, greeted.queue, changes);
        if pad.index == index {
            law_changes_tell_all(m.pad(index), index, pad);
        } else {
            crate::laws::web::law_changes_are_input(m.pad(pad.index), Id(pad.index), pad);
            assert forall|i: int| 0 <= i < changes.len() implies (#[trigger] changes[i]).id.0
                != index by {
                assert(crate::laws::web::input_on(Id(pad.index), changes[i]));
            }
            lemma_others_tell_nothing(held.after_all(index, greeted.queue), index, changes);
        }
    }
}

proof fn lemma_observed_all_mirrored(
    held: Held,
    index: u32,
    m: Model,
    list: Seq<Option<PadReading>>,
)
    requires
        mirrors(held, index, m),
        keeps_all_of(m, list, index),
    ensures
        mirrors(held, index, m.observed_all(list)),
    decreases list.len(),
{
    if list.len() > 0 {
        let (done, last) = (list.drop_last(), list.len() - 1);
        assert(keeps_all_of(m, done, index)) by {
            assert forall|n: int| 0 <= n < done.len() implies (#[trigger] web::present(
                done[n],
            ) matches Some(pad) ==> (pad.index == index ==> keeps_all(
                m.observed_all(done.take(n)).pad(index),
                pad,
            ))) by {
                assert(list[n] == done[n]);
                assert(list.take(n) =~= done.take(n));
                assert(web::present(list[n]) == web::present(done[n]));
            }
        }
        lemma_observed_all_mirrored(held, index, m, done);
        assert(list.take(last) =~= done);
        assert(web::present(list[last]) == web::present(list.last()));
        lemma_observed_mirrored(held, index, m.observed_all(done), list.last());
    }
}

proof fn lemma_forgotten_mirrored(held: Held, index: u32, m: Model, gone: Seq<u32>)
    requires
        mirrors(held, index, m),
    ensures
        mirrors(held, index, m.forgotten(gone)),
    decreases gone.len(),
{
    lemma_nothing_held_of_fresh();
    if gone.len() == 0 {
        assert(m.forgotten(gone).queue =~= m.queue);
        assert(m.forgotten(gone).pads =~= m.pads);
    } else {
        let (fewer, last) = (gone.drop_last(), gone.last());
        let (before, after) = (m.forgotten(fewer), m.forgotten(gone));
        let event = Event { id: Id(last), kind: EventKind::Disconnected };
        lemma_forgotten_mirrored(held, index, m, fewer);
        assert(after.queue =~= before.queue + seq![event]);
        lemma_after_all_concat(held, index, before.queue, seq![event]);
        lemma_after_one(held.after_all(index, before.queue), index, event);
        assert(gone =~= fewer.push(last));
        web::lemma_push_contains(fewer, last);
        assert(gone.to_set().contains(index) == gone.contains(index));
        assert(fewer.to_set().contains(index) == fewer.contains(index));
        assert(gone.to_set().contains(last));
    }
}

proof fn lemma_popped_mirrored(held: Held, index: u32, m: Model)
    requires
        mirrors(held, index, m),
    ensures
        match m.first() {
            Some(event) => mirrors(held.after_all(index, seq![event]), index, m.popped()),
            None => mirrors(held, index, m.popped()),
        },
{
    if m.queue.len() > 0 {
        let event = m.queue[0];
        assert(m.queue =~= seq![event] + m.queue.drop_first());
        lemma_after_all_concat(held, index, seq![event], m.queue.drop_first());
    }
}

/// A caller that keeps track of a pad by the events it is handed keeps what
/// the backend's state of the pad amounts to, once it was handed all that is
/// queued: the level-triggered snapshots come out as an edge-triggered stream
/// that loses nothing. No snapshot may be short of a control that is not at
/// rest.
pub proof fn law_stream_mirrors_the_pads(
    held: Held,
    index: u32,
    m: Model,
    reply: Reply,
    after: Model,
    step: Step,
)
    requires
        mirrors(held, index, m),
        m.answers(reply, after, step),
        reply matches Reply::Snapshot(Some(list)) ==> keeps_all_of(m, list@, index),
    ensures
        match step {
            Step::Return { event: Some(event), .. } => mirrors(
                held.after_all(index, seq![event]),
                index,
                after,
            ),
            _ => mirrors(held, index, after),
        },
{
    if m.live {
        match reply {
            Reply::Start => {
                lemma_popped_mirrored(held, index, m);
            },
            Reply::Snapshot(Some(list)) => {
                let polled = choose|polled: Model|
                    {
                        &&& #[trigger] m.polls_to(list@, polled)
                        &&& after == polled.popped()
                        &&& step == (Step::Return {
                            event: polled.first(),
                            unmapped: if m.warned {
                                None
                            } else {
                                web::first_unmapped(list@)
                            },
                        })
                    };
                let observed = m.observed_all(list@);
                let gone = choose|gone: Seq<u32>|
                    {
                        &&& web::lists_gone(gone, observed.pads, list@)
                        &&& polled == #[trigger] observed.forgotten(gone)
                    };
                lemma_observed_all_mirrored(held, index, m, list@);
                lemma_forgotten_mirrored(held, index, observed, gone);
                lemma_popped_mirrored(held, index, polled);
            },
            Reply::Snapshot(None) => {
                lemma_popped_mirrored(held, index, m);
            },
        }
    }
}

/// Whether a button of a pad is down after some events, of it and of others,
/// where it was `down` before.
pub open spec fn down_after(down: bool, index: u32, button: Button, events: Seq<Event>) -> bool
    decreases events.len(),
{
    if events.len() == 0 {
        down
    } else {
        let before = down_after(down, index, button, events.drop_last());
        if events.last().id.0 == index {
            match events.last().kind {
                EventKind::Connected => false,
                EventKind::Disconnected => false,
                EventKind::ButtonDown(b) => before || b == button,
                EventKind::ButtonUp(b) => before && b != button,
                EventKind::AxisMotion { .. } => before,
            }
        } else {
            before
        }
    }
}

/// Whether the presses and releases of a button of a pad alternate: it goes
/// down only while it is up, and up only while it is down.
pub open spec fn alternates(down: bool, index: u32, button: Button, events: Seq<Event>) -> bool
    decreases events.len(),
{
    if events.len() == 0 {
        true
    } else {
        let before = down_after(down, index, button, events.drop_last());
        &&& alternates(down, index, button, events.drop_last())
        &&& events.last().id.0 == index ==> match events.last().kind {
            EventKind::ButtonDown(b) => b == button ==> !before,
            EventKind::ButtonUp(b) => b == button ==> before,
            _ => true,
        }
    }
}

/// Whether a button is down in the state of a pad.
pub open spec fn is_down(state: PadModel, button: Button) -> bool {
    held_by(state).down.contains(button)
}

/// Whether a snapshot is not short of the button, if that is down.
pub open spec fn keeps_button(state: PadModel, pad: PadReading, button: Button) -> bool {
    is_down(state.fitted(pad), button) == is_down(state, button)
}

/// Whether the entries of a snapshot, taken over in turn, each keep a button of
/// a pad.
pub open spec fn keeps_button_of(
    m: Model,
    list: Seq<Option<PadReading>>,
    index: u32,
    button: Button,
) -> bool {
    forall|n: int|
        0 <= n < list.len() ==> (#[trigger] web::present(list[n]) matches Some(pad) ==> (pad.index
            == index ==> keeps_button(m.observed_all(list.take(n)).pad(index), pad, button)))
}

/// Whether the queued presses and releases of a button alternate for a caller
/// that has it `down` or not, and leave it as the backend's state has it.
pub open spec fn in_step(down: bool, index: u32, button: Button, m: Model) -> bool {
    &&& alternates(down, index, button, m.queue)
    &&& down_after(down, index, button, m.queue) == is_down(m.pad(index), button)
}

/// A snapshot with no fewer buttons than the one before keeps them all.
pub proof fn law_no_fewer_buttons_are_kept(state: PadModel, pad: PadReading, button: Button)
    requires
        state.buttons.len() <= pad.buttons@.len(),
    ensures
        keeps_button(state, pad, button),
{
    let fitted = state.fitted(pad);
    if is_down(state, button) {
        let i = choose|i: int| #[trigger] down_at(state.buttons, i, button);
        assert(down_at(fitted.buttons, i, button));
    }
    if is_down(fitted, button) {
        let i = choose|i: int| #[trigger] down_at(fitted.buttons, i, button);
        assert(down_at(state.buttons, i, button));
    }
}

proof fn lemma_alternates_concat(
    down: bool,
    index: u32,
    button: Button,
    a: Seq<Event>,
    b: Seq<Event>,
)
    ensures
        down_after(down, index, button, a + b) == down_after(
            down_after(down, index, button, a),
            index,
            button,
            b,
        ),
        alternates(down, index, button, a + b) <==> alternates(down, index, button, a)
            && alternates(down_after(down, index, button, a), index, button, b),
    decreases b.len(),
{
    if b.len() == 0 {
        assert(a + b =~= a);
    } else {
        assert((a + b).drop_last() =~= a + b.drop_last());
        lemma_alternates_concat(down, index, button, a, b.drop_last());
    }
}

/// What a caller keeps of all buttons tells whether one is down.
proof fn lemma_down_is_held(held: Held, index: u32, button: Button, events: Seq<Event>)
    ensures
        down_after(held.down.contains(button), index, button, events) == held.after_all(
            index,
            events,
        ).down.contains(button),
    decreases events.len(),
{
    if events.len() > 0 {
        lemma_down_is_held(held, index, button, events.drop_last());
    }
}

/// Events of other pads, and motions, are no presses.
proof fn lemma_no_presses(down: bool, index: u32, button: Button, events: Seq<Event>)
    requires
        forall|i: int|
            0 <= i < events.len() ==> (#[trigger] events[i]).id.0 != index
                || events[i].kind is AxisMotion,
    ensures
        down_after(down, index, button, events) == down,
        alternates(down, index, button, events),
    decreases events.len(),
{
    if events.len() > 0 {
        let before = events.drop_last();
        assert forall|i: int| 0 <= i < before.len() implies (#[trigger] before[i]).id.0 != index
            || before[i].kind is AxisMotion by {
            assert(before[i] == events[i]);
        }
        lemma_no_presses(down, index, button, before);
        assert(events[events.len() - 1] == events.last());
    }
}

proof fn lemma_trigger_motions_are_motions(
    id: Id,
    was: Seq<Single>,
    buttons: Seq<Option<ButtonReading>>,
    n: nat,
)
    ensures
        forall|i: int|
            0 <= i < web::trigger_motions(id, was, buttons, n).len() ==> (
            #[trigger] web::trigger_motions(id, was, buttons, n)[i]).kind is AxisMotion,
    decreases n,
{
    if n > 0 {
        lemma_trigger_motions_are_motions(id, was, buttons, (n - 1) as nat);
    }
}

proof fn lemma_stick_motions_are_motions(
    id: Id,
    was: Seq<Single>,
    axes: Seq<Option<Double>>,
    n: nat,
)
    ensures
        forall|i: int|
            0 <= i < web::stick_motions(id, was, axes, n).len() ==> (#[trigger] web::stick_motions(
                id,
                was,
                axes,
                n,
            )[i]).kind is AxisMotion,
    decreases n,
{
    if n > 0 {
        lemma_stick_motions_are_motions(id, was, axes, (n - 1) as nat);
    }
}

proof fn lemma_edges_alternate(
    index: u32,
    state: PadModel,
    buttons: Seq<Option<ButtonReading>>,
    n: nat,
    button: Button,
)
    requires
        state.buttons.len() == buttons.len(),
    ensures
        alternates(
            is_down(state, button),
            index,
            button,
            web::edges(Id(index), state.buttons, buttons, n),
        ),
    decreases n,
{
    if n > 0 {
        let i = n - 1;
        let was = state.buttons;
        let now = upto(was, web::pressed_after(was, buttons), i as nat);
        let edges = web::edges(Id(index), was, buttons, i as nat);
        let edge = web::edge(Id(index), was, buttons, i);
        lemma_edges_alternate(index, state, buttons, i as nat, button);
        lemma_edges_mirrored(index, state, buttons, i as nat);
        lemma_down_is_held(held_by(state), index, button, edges);
        lemma_alternates_concat(is_down(state, button), index, button, edges, edge);
        let down = down_after(is_down(state, button), index, button, edges);
        if edge.len() > 0 && web::button_of(i) == Some(button) {
            assert(now[i] == was[i]);
            if was[i] {
                assert(down_at(now, i, button));
            } else if down {
                let j = choose|j: int| #[trigger] down_at(now, j, button);
                assert(j == i);
            }
        }
        reveal_with_fuel(alternates, 2);
        reveal_with_fuel(down_after, 2);
        assert(edge.len() > 0 ==> edge.drop_last() =~= Seq::empty());
    }
}

proof fn lemma_changes_alternate(was: PadModel, index: u32, pad: PadReading, button: Button)
    requires
        keeps_button(was, pad, button),
    ensures
        alternates(is_down(was, button), index, button, was.changes(Id(index), pad)),
        down_after(is_down(was, button), index, button, was.changes(Id(index), pad)) == is_down(
            was.after(pad),
            button,
        ),
{
    let id = Id(index);
    let fitted = was.fitted(pad);
    let down = is_down(was, button);
    let a = web::edges(id, fitted.buttons, pad.buttons@, web::BUTTON_SLOTS as nat);
    let b = web::trigger_motions(id, fitted.triggers, pad.buttons@, web::BUTTON_SLOTS as nat);
    let c = web::stick_motions(id, fitted.axes, pad.axes@, web::AXIS_SLOTS as nat);
    assert(fitted.fitted(pad) =~= fitted);
    law_changes_tell_all(fitted, index, pad);
    lemma_down_is_held(held_by(fitted), index, button, fitted.changes(id, pad));
    lemma_edges_alternate(index, fitted, pad.buttons@, web::BUTTON_SLOTS as nat, button);
    lemma_trigger_motions_are_motions(
        id,
        fitted.triggers,
        pad.buttons@,
        web::BUTTON_SLOTS as nat,
    );
    lemma_stick_motions_are_motions(id, fitted.axes, pad.axes@, web::AXIS_SLOTS as nat);
    lemma_alternates_concat(down, index, button, a, b);
    lemma_alternates_concat(down, index, button, a + b, c);
    lemma_no_presses(down_after(down, index, button, a), index, button, b);
    lemma_no_presses(down_after(down, index, button, a + b), index, button, c);
}

/// An announcement leaves all buttons of its pad up.
proof fn lemma_announcement_alternates(down: bool, index: u32, button: Button, event: Event)
    requires
        event.kind is Connected || event.kind is Disconnected,
    ensures
        alternates(down, index, button, seq![event]),
        down_after(down, index, button, seq![event]) == (down && event.id.0 != index),
{
    reveal_with_fuel(alternates, 2);
    reveal_with_fuel(down_after, 2);
    assert(seq![event].drop_last() =~= Seq::empty());
}

proof fn lemma_observed_in_step(
    down: bool,
    index: u32,
    button: Button,
    m: Model,
    entry: Option<PadReading>,
)
    requires
        in_step(down, index, button, m),
        web::present(entry) matches Some(pad) ==> (pad.index == index ==> keeps_button(
            m.pad(index),
            pad,
            button,
        )),
    ensures
        in_step(down, index, button, m.observed(entry)),
{
    if let Some(pad) = web::present(entry) {
        let greeted = m.greeted(pad.index);
        lemma_nothing_held_of_fresh();
        assert(greeted.pad(pad.index) == m.pad(pad.index));
        assert(in_step(down, index, button, greeted)) by {
            if !m.pads.contains_key(pad.index) {
                let event = Event { id: Id(pad.index), kind: EventKind::Connected };
                let now = down_after(down, index, button, m.queue);
                assert(greeted.queue =~= m.queue + seq![event]);
                lemma_alternates_concat(down, index, button, m.queue, seq![event]);
                lemma_announcement_alternates(now, index, button, event);
            }
        }
        let changes = m.pad(pad.index).changes(Id(pad.index), pad);
        let now = down_after(down, index, button, greeted.queue);
        lemma_alternates_concat(down, index, button, greeted.queue, changes);
        if pad.index == index {
            lemma_changes_alternate(m.pad(index), index, pad, button);
        } else {
            crate::laws::web::law_changes_are_input(m.pad(pad.index), Id(pad.index), pad);
            assert forall|i: int| 0 <= i < changes.len() implies (#[trigger] changes[i]).id.0
                != index by {
                assert(crate::laws::web::input_on(Id(pad.index), changes[i]));
            }
            lemma_no_presses(now, index, button, changes);
        }
    }
}

proof fn lemma_observed_all_in_step(
    down: bool,
    index: u32,
    button: Button,
    m: Model,
    list: Seq<Option<PadReading>>,
)
    requires
        in_step(down, index, button, m),
        keeps_button_of(m, list, index, button),
    ensures
        in_step(down, index, button, m.observed_all(list)),
    decreases list.len(),
{
    if list.len() > 0 {
        let (done, last) = (list.drop_last(), list.len() - 1);
        assert(keeps_button_of(m, done, index, button)) by {
            assert forall|n: int| 0 <= n < done.len() implies (#[trigger] web::present(
                done[n],
            ) matches Some(pad) ==> (pad.index == index ==> keeps_button(
                m.observed_all(done.take(n)).pad(index),
                pad,
                button,
            ))) by {
                assert(list[n] == done[n]);
                assert(list.take(n) =~= done.take(n));
                assert(web::present(list[n]) == web::present(done[n]));
            }
        }
        lemma_observed_all_in_step(down, index, button, m, done);
        assert(list.take(last) =~= done);
        assert(web::present(list[last]) == web::present(list.last()));
        lemma_observed_in_step(down, index, button, m.observed_all(done), list.last());
    }
}

proof fn lemma_forgotten_in_step(
    down: bool,
    index: u32,
    button: Button,
    m: Model,
    gone: Seq<u32>,
)
    requires
        in_step(down, index, button, m),
    ensures
        in_step(down, index, button, m.forgotten(gone)),
    decreases gone.len(),
{
    lemma_nothing_held_of_fresh();
    if gone.len() == 0 {
        assert(m.forgotten(gone).queue =~= m.queue);
        assert(m.forgotten(gone).pads =~= m.pads);
    } else {
        let (fewer, last) = (gone.drop_last(), gone.last());
        let (before, after) = (m.forgotten(fewer), m.forgotten(gone));
        let event = Event { id: Id(last), kind: EventKind::Disconnected };
        lemma_forgotten_in_step(down, index, button, m, fewer);
        assert(after.queue =~= before.queue + seq![event]);
        lemma_alternates_concat(down, index, button, before.queue, seq![event]);
        lemma_announcement_alternates(
            down_after(down, index, button, before.queue),
            index,
            button,
            event,
        );
        assert(gone =~= fewer.push(last));
        web::lemma_push_contains(fewer, last);
        assert(gone.to_set().contains(index) == gone.contains(index));
        assert(fewer.to_set().contains(index) == fewer.contains(index));
    }
}

proof fn lemma_popped_in_step(down: bool, index: u32, button: Button, m: Model)
    requires
        in_step(down, index, button, m),
    ensures
        match m.first() {
            Some(event) => alternates(down, index, button, seq![event]) && in_step(
                down_after(down, index, button, seq![event]),
                index,
                button,
                m.popped(),
            ),
            None => in_step(down, index, button, m.popped()),
        },
{
    if m.queue.len() > 0 {
        let event = m.queue[0];
        assert(m.queue =~= seq![event] + m.queue.drop_first());
        lemma_alternates_concat(down, index, button, seq![event], m.queue.drop_first());
    }
}

/// The presses and releases of a button alternate from a pad's connection to
/// its disconnection, and start with a press: where `down` is whether the
/// button is, after the events handed out so far, each further event presses
/// it only while it is up, and releases it only while it is down. No snapshot
/// may be short of the button while it is down.
pub proof fn law_presses_alternate(
    down: bool,
    index: u32,
    button: Button,
    m: Model,
    reply: Reply,
    after: Model,
    step: Step,
)
    requires
        in_step(down, index, button, m),
        m.answers(reply, after, step),
        reply matches Reply::Snapshot(Some(list)) ==> keeps_button_of(m, list@, index, button),
    ensures
        match step {
            Step::Return { event: Some(event), .. } => alternates(
                down,
                index,
                button,
                seq![event],
            ) && in_step(down_after(down, index, button, seq![event]), index, button, after),
            _ => in_step(down, index, button, after),
        },
{
    if m.live {
        match reply {
            Reply::Start => {
                lemma_popped_in_step(down, index, button, m);
            },
            Reply::Snapshot(Some(list)) => {
                let polled = choose|polled: Model|
                    {
                        &&& #[trigger] m.polls_to(list@, polled)
                        &&& after == polled.popped()
                        &&& step == (Step::Return {
                            event: polled.first(),
                            unmapped: if m.warned {
                                None
                            } else {
                                web::first_unmapped(list@)
                            },
                        })
                    };
                let observed = m.observed_all(list@);
                let gone = choose|gone: Seq<u32>|
                    {
                        &&& web::lists_gone(gone, observed.pads, list@)
                        &&& polled == #[trigger] observed.forgotten(gone)
                    };
                lemma_observed_all_in_step(down, index, button, m, list@);
                lemma_forgotten_in_step(down, index, button, observed, gone);
                lemma_popped_in_step(down, index, button, polled);
            },
            Reply::Snapshot(None) => {
                lemma_popped_in_step(down, index, button, m);
            },
        }
    }
}

} // verus!
