//! What holds of the browser backend.

use crate::ieee;
use crate::ieee::{Double, Single};
use crate::laws::values;
use crate::web;
use crate::web::{ButtonReading, Model, PadModel, PadReading, Reply, Step};
use crate::{Axis, Button, Event, EventKind, Id};
use vstd::prelude::*;

verus! {

/// Whether a button is in the browser's standard mapping, which has no
/// `Misc*` buttons, no paddles and no touchpad.
pub open spec fn mapped(button: Button) -> bool {
    match button {
        Button::Misc1 => false,
        Button::Misc2 => false,
        Button::Misc3 => false,
        Button::Misc4 => false,
        Button::Misc5 => false,
        Button::Misc6 => false,
        Button::RightPaddle1 => false,
        Button::LeftPaddle1 => false,
        Button::RightPaddle2 => false,
        Button::LeftPaddle2 => false,
        Button::Touchpad => false,
        _ => true,
    }
}

/// Whether a value is one that an axis can have: in [0, 1] for a trigger, and
/// in [-1, 1] for a stick.
pub open spec fn ranged(axis: Axis, value: Single) -> bool {
    match axis {
        Axis::TriggerLeft => value.within_unit(),
        Axis::TriggerRight => value.within_unit(),
        _ => value.within_one(),
    }
}

/// Whether an event is one that a browser can cause.
pub open spec fn plausible(event: Event) -> bool {
    match event.kind {
        EventKind::Connected => true,
        EventKind::Disconnected => true,
        EventKind::ButtonDown(button) => mapped(button),
        EventKind::ButtonUp(button) => mapped(button),
        EventKind::AxisMotion { axis, value } => ranged(axis, value),
    }
}

/// Whether an event is input on a pad.
pub open spec fn input_on(id: Id, event: Event) -> bool {
    &&& event.id == id
    &&& !(event.kind is Connected)
    &&& !(event.kind is Disconnected)
    &&& plausible(event)
}

/// Whether all of some events are input on a pad.
pub open spec fn inputs_on(id: Id, events: Seq<Event>) -> bool {
    forall|i: int| 0 <= i < events.len() ==> input_on(id, #[trigger] events[i])
}

proof fn lemma_inputs_concat(id: Id, a: Seq<Event>, b: Seq<Event>)
    requires
        inputs_on(id, a),
        inputs_on(id, b),
    ensures
        inputs_on(id, a + b),
{
    assert forall|i: int| 0 <= i < (a + b).len() implies input_on(id, #[trigger] (a + b)[i]) by {
        if i < a.len() {
            assert((a + b)[i] == a[i]);
        } else {
            assert((a + b)[i] == b[i - a.len()]);
        }
    }
}

proof fn lemma_edges(id: Id, was: Seq<bool>, buttons: Seq<Option<ButtonReading>>, n: nat)
    ensures
        inputs_on(id, web::edges(id, was, buttons, n)),
    decreases n,
{
    if n > 0 {
        lemma_edges(id, was, buttons, (n - 1) as nat);
        lemma_inputs_concat(
            id,
            web::edges(id, was, buttons, (n - 1) as nat),
            web::edge(id, was, buttons, n - 1),
        );
    }
}

proof fn lemma_trigger_motions(
    id: Id,
    was: Seq<Single>,
    buttons: Seq<Option<ButtonReading>>,
    n: nat,
)
    ensures
        inputs_on(id, web::trigger_motions(id, was, buttons, n)),
    decreases n,
{
    if n > 0 {
        lemma_trigger_motions(id, was, buttons, (n - 1) as nat);
        if let Some(r) = web::reading_at(buttons, n - 1) {
            values::law_triggers_in_range(r.value);
        }
        lemma_inputs_concat(
            id,
            web::trigger_motions(id, was, buttons, (n - 1) as nat),
            web::motion_of(
                id,
                web::trigger_axis_of(n - 1),
                was[n - 1],
                web::trigger_at(buttons, n - 1),
            ),
        );
    }
}

proof fn lemma_stick_motions(id: Id, was: Seq<Single>, axes: Seq<Option<Double>>, n: nat)
    ensures
        inputs_on(id, web::stick_motions(id, was, axes, n)),
    decreases n,
{
    if n > 0 {
        lemma_stick_motions(id, was, axes, (n - 1) as nat);
        ieee::lemma_single(false, 0);
        if n - 1 < axes.len() {
            if let Some(d) = axes[n - 1] {
                values::law_sticks_in_range(d);
            }
        }
        lemma_inputs_concat(
            id,
            web::stick_motions(id, was, axes, (n - 1) as nat),
            web::motion_of(
                id,
                web::stick_axis_of(n - 1),
                was[n - 1],
                web::stick_at(axes, n - 1),
            ),
        );
    }
}

/// All that a snapshot of a pad gives rise to is input on that pad, on buttons
/// of the standard mapping and with values in range: triggers are axes, and
/// none of the extra buttons ever arrives.
pub proof fn law_changes_are_input(was: PadModel, id: Id, pad: PadReading)
    ensures
        inputs_on(id, was.changes(id, pad)),
{
    let fitted = was.fitted(pad);
    let a = web::edges(id, fitted.buttons, pad.buttons@, web::BUTTON_SLOTS as nat);
    let b = web::trigger_motions(id, fitted.triggers, pad.buttons@, web::BUTTON_SLOTS as nat);
    let c = web::stick_motions(id, fitted.axes, pad.axes@, web::AXIS_SLOTS as nat);
    lemma_edges(id, fitted.buttons, pad.buttons@, web::BUTTON_SLOTS as nat);
    lemma_trigger_motions(id, fitted.triggers, pad.buttons@, web::BUTTON_SLOTS as nat);
    lemma_stick_motions(id, fitted.axes, pad.axes@, web::AXIS_SLOTS as nat);
    lemma_inputs_concat(id, a, b);
    lemma_inputs_concat(id, a + b, c);
}

/// Pads are not taken for one another: what a snapshot says of one pad changes
/// nothing that is known of another, and causes no event of another.
pub proof fn law_pads_are_kept_apart(m: Model, entry: Option<PadReading>, index: u32)
    requires
        web::present(entry) matches Some(pad) ==> pad.index != index,
    ensures
        m.observed(entry).pad(index) == m.pad(index),
        m.queue.is_prefix_of(m.observed(entry).queue),
        forall|i: int|
            m.queue.len() <= i < m.observed(entry).queue.len() ==> (#[trigger] m.observed(
                entry,
            ).queue[i]).id != Id(index),
{
    if let Some(pad) = web::present(entry) {
        let id = Id(pad.index);
        let greeted = m.greeted(pad.index);
        let changes = greeted.pad(pad.index).changes(id, pad);
        law_changes_are_input(greeted.pad(pad.index), id, pad);
        let after = m.observed(entry);
        assert forall|i: int| m.queue.len() <= i < after.queue.len() implies (
        #[trigger] after.queue[i]).id != Id(index) by {
            if i >= greeted.queue.len() {
                assert(input_on(id, changes[i - greeted.queue.len()]));
            }
        }
    }
}

/// The pads that are connected once some events were handed out.
pub open spec fn announced(known: Set<u32>, events: Seq<Event>) -> Set<u32>
    decreases events.len(),
{
    if events.len() == 0 {
        known
    } else {
        let before = announced(known, events.drop_last());
        match events.last().kind {
            EventKind::Connected => before.insert(events.last().id.0),
            EventKind::Disconnected => before.remove(events.last().id.0),
            _ => before,
        }
    }
}

/// Whether events make sense one after the other: a pad connects only while it
/// is not connected, and all else comes from pads that are.
pub open spec fn orderly(known: Set<u32>, events: Seq<Event>) -> bool
    decreases events.len(),
{
    if events.len() == 0 {
        true
    } else {
        &&& orderly(known, events.drop_last())
        &&& announced(known, events.drop_last()).contains(events.last().id.0) != (
        events.last().kind is Connected)
    }
}

proof fn lemma_orderly_concat(known: Set<u32>, a: Seq<Event>, b: Seq<Event>)
    ensures
        announced(known, a + b) == announced(announced(known, a), b),
        orderly(known, a + b) <==> orderly(known, a) && orderly(announced(known, a), b),
    decreases b.len(),
{
    if b.len() == 0 {
        assert(a + b =~= a);
    } else {
        assert((a + b).drop_last() =~= a + b.drop_last());
        lemma_orderly_concat(known, a, b.drop_last());
    }
}

proof fn lemma_input_is_orderly(known: Set<u32>, id: Id, events: Seq<Event>)
    requires
        known.contains(id.0),
        inputs_on(id, events),
    ensures
        announced(known, events) == known,
        orderly(known, events),
    decreases events.len(),
{
    if events.len() > 0 {
        let before = events.drop_last();
        assert(inputs_on(id, before)) by {
            assert forall|i: int| 0 <= i < before.len() implies input_on(
                id,
                #[trigger] before[i],
            ) by {
                assert(before[i] == events[i]);
            }
        }
        lemma_input_is_orderly(known, id, before);
        assert(input_on(id, events[events.len() - 1]));
    }
}

/// Whether the queue makes sense to a caller that was handed `known` as the
/// connected pads, and leaves it with the pads that the backend knows.
pub open spec fn consistent(known: Set<u32>, m: Model) -> bool {
    &&& orderly(known, m.queue)
    &&& announced(known, m.queue) == m.pads.dom()
}

proof fn lemma_observed_consistent(known: Set<u32>, m: Model, entry: Option<PadReading>)
    requires
        consistent(known, m),
    ensures
        consistent(known, m.observed(entry)),
{
    if let Some(pad) = web::present(entry) {
        let index = pad.index;
        let greeted = m.greeted(index);
        assert(consistent(known, greeted)) by {
            if !m.pads.contains_key(index) {
                let event = Event { id: Id(index), kind: EventKind::Connected };
                assert(greeted.queue.drop_last() =~= m.queue);
                assert(greeted.queue.last() == event);
                assert(greeted.pads.dom() =~= m.pads.dom().insert(index));
            }
        }
        let changes = greeted.pad(index).changes(Id(index), pad);
        law_changes_are_input(greeted.pad(index), Id(index), pad);
        lemma_input_is_orderly(greeted.pads.dom(), Id(index), changes);
        lemma_orderly_concat(known, greeted.queue, changes);
        assert(m.observed(entry).pads.dom() =~= greeted.pads.dom());
    }
}

proof fn lemma_observed_all_consistent(known: Set<u32>, m: Model, list: Seq<Option<PadReading>>)
    requires
        consistent(known, m),
    ensures
        consistent(known, m.observed_all(list)),
    decreases list.len(),
{
    if list.len() > 0 {
        lemma_observed_all_consistent(known, m, list.drop_last());
        lemma_observed_consistent(known, m.observed_all(list.drop_last()), list.last());
    }
}

proof fn lemma_forgotten_consistent(known: Set<u32>, m: Model, gone: Seq<u32>)
    requires
        consistent(known, m),
        gone.no_duplicates(),
        forall|k: u32| #[trigger] gone.contains(k) ==> m.pads.contains_key(k),
    ensures
        consistent(known, m.forgotten(gone)),
    decreases gone.len(),
{
    if gone.len() == 0 {
        assert(m.forgotten(gone).queue =~= m.queue);
        assert(m.forgotten(gone).pads.dom() =~= m.pads.dom());
    } else {
        let (fewer, last) = (gone.drop_last(), gone.last());
        assert forall|k: u32| #[trigger] fewer.contains(k) implies m.pads.contains_key(k) by {
            let i = choose|i: int| 0 <= i < fewer.len() && fewer[i] == k;
            assert(gone[i] == k);
            assert(gone.contains(k));
        }
        lemma_forgotten_consistent(known, m, fewer);
        let (before, after) = (m.forgotten(fewer), m.forgotten(gone));
        assert(after.queue.drop_last() =~= before.queue);
        assert(gone =~= fewer.push(last));
        web::lemma_push_contains(fewer, last);
        assert(gone.contains(last));
        assert(!fewer.contains(last)) by {
            if fewer.contains(last) {
                let i = choose|i: int| 0 <= i < fewer.len() && fewer[i] == last;
                assert(gone[i] == gone[gone.len() - 1]);
            }
        }
        assert(before.pads.contains_key(last));
        assert(after.pads.dom() =~= before.pads.dom().remove(last));
    }
}

/// A poll keeps the stream in order.
pub proof fn law_poll_is_orderly(
    known: Set<u32>,
    m: Model,
    list: Seq<Option<PadReading>>,
    after: Model,
)
    requires
        consistent(known, m),
        m.polls_to(list, after),
    ensures
        consistent(known, after),
{
    let observed = m.observed_all(list);
    let gone = choose|gone: Seq<u32>|
        {
            &&& web::lists_gone(gone, observed.pads, list)
            &&& after == #[trigger] observed.forgotten(gone)
        };
    lemma_observed_all_consistent(known, m, list);
    lemma_forgotten_consistent(known, observed, gone);
}

proof fn lemma_popped_consistent(known: Set<u32>, m: Model)
    requires
        consistent(known, m),
    ensures
        match m.first() {
            Some(event) => orderly(known, seq![event]) && consistent(
                announced(known, seq![event]),
                m.popped(),
            ),
            None => consistent(known, m.popped()),
        },
{
    if m.queue.len() > 0 {
        let event = m.queue[0];
        assert(m.queue =~= seq![event] + m.queue.drop_first());
        lemma_orderly_concat(known, seq![event], m.queue.drop_first());
    }
}

/// The stream of events makes sense, whatever the snapshots: where `known` are
/// the pads whose connection was handed out and whose disconnection was not,
/// each further event is either a connection of another pad, or comes from one
/// of them. So the first thing that is ever heard of a pad is that it is
/// connected, the last that it is disconnected, and in between it is not
/// announced again.
pub proof fn law_stream_is_orderly(
    known: Set<u32>,
    m: Model,
    reply: Reply,
    after: Model,
    step: Step,
)
    requires
        consistent(known, m),
        m.answers(reply, after, step),
    ensures
        match step {
            Step::Return { event: Some(event), .. } => orderly(known, seq![event]) && consistent(
                announced(known, seq![event]),
                after,
            ),
            _ => consistent(known, after),
        },
{
    if m.live {
        match reply {
            Reply::Start => {
                lemma_popped_consistent(known, m);
            },
            Reply::Snapshot(Some(list)) => {
                let polled = choose|polled: Model|
                    {
                        &&& #[trigger] m.polls_to(list@, polled)
                        &&& after == polled.popped()
                        &&& step == (Step::Return {
                            event: polled.first(),
                            unmapped: if m.warned {
                                None
                            } else {
                                web::first_unmapped(list@)
                            },
                        })
                    };
                law_poll_is_orderly(known, m, list@, polled);
                lemma_popped_consistent(known, polled);
            },
            Reply::Snapshot(None) => {
                lemma_popped_consistent(known, m);
            },
        }
    }
}

/// Whether all queued events are ones that a browser can cause.
pub open spec fn all_plausible(m: Model) -> bool {
    forall|i: int| 0 <= i < m.queue.len() ==> plausible(#[trigger] m.queue[i])
}

proof fn lemma_observed_all_plausible(m: Model, list: Seq<Option<PadReading>>)
    requires
        all_plausible(m),
    ensures
        all_plausible(m.observed_all(list)),
    decreases list.len(),
{
    if list.len() > 0 {
        let before = m.observed_all(list.drop_last());
        lemma_observed_all_plausible(m, list.drop_last());
        if let Some(pad) = web::present(list.last()) {
            let greeted = before.greeted(pad.index);
            let changes = greeted.pad(pad.index).changes(Id(pad.index), pad);
            law_changes_are_input(greeted.pad(pad.index), Id(pad.index), pad);
            let after = m.observed_all(list);
            assert forall|i: int| 0 <= i < after.queue.len() implies plausible(
                #[trigger] after.queue[i],
            ) by {
                if i < before.queue.len() {
                    assert(after.queue[i] == before.queue[i]);
                } else if i >= greeted.queue.len() {
                    assert(input_on(Id(pad.index), changes[i - greeted.queue.len()]));
                }
            }
        }
    }
}

/// A poll queues nothing that a browser cannot cause.
pub proof fn law_poll_is_plausible(m: Model, list: Seq<Option<PadReading>>, after: Model)
    requires
        all_plausible(m),
        m.polls_to(list, after),
    ensures
        all_plausible(after),
{
    lemma_observed_all_plausible(m, list);
    let observed = m.observed_all(list);
    assert forall|i: int| 0 <= i < after.queue.len() implies plausible(
        #[trigger] after.queue[i],
    ) by {
        if i < observed.queue.len() {
            assert(after.queue[i] == observed.queue[i]);
        }
    }
}

/// Every event that is handed out is one that a browser can cause: its values
/// are in range, and its buttons are in the standard mapping.
pub proof fn law_stream_is_plausible(m: Model, reply: Reply, after: Model, step: Step)
    requires
        all_plausible(m),
        m.answers(reply, after, step),
    ensures
        all_plausible(after),
        step matches Step::Return { event: Some(event), .. } ==> plausible(event),
{
    let polled = match reply {
        Reply::Snapshot(Some(list)) if m.live => choose|polled: Model|
            {
                &&& #[trigger] m.polls_to(list@, polled)
                &&& after == polled.popped()
                &&& step == (Step::Return {
                    event: polled.first(),
                    unmapped: if m.warned {
                        None
                    } else {
                        web::first_unmapped(list@)
                    },
                })
            },
        _ => m,
    };
    if let Reply::Snapshot(Some(list)) = reply {
        if m.live {
            law_poll_is_plausible(m, list@, polled);
        }
    }
    assert(all_plausible(polled));
    assert forall|i: int| 0 <= i < after.queue.len() implies plausible(
        #[trigger] after.queue[i],
    ) by {
        if after.queue.len() == polled.queue.len() {
            assert(after.queue[i] == polled.queue[i]);
        } else {
            assert(after.queue[i] == polled.queue[i + 1]);
        }
    }
}

proof fn lemma_observed_all_known(m: Model, list: Seq<Option<PadReading>>, k: u32)
    ensures
        m.observed_all(list).pads.contains_key(k) <==> m.pads.contains_key(k) || web::shows(
            list,
            k,
        ),
    decreases list.len(),
{
    if list.len() > 0 {
        let (done, entry) = (list.drop_last(), list.last());
        lemma_observed_all_known(m, done, k);
        if web::shows(done, k) {
            let i = choose|i: int|
                0 <= i < done.len() && (#[trigger] web::present(done[i]) matches Some(pad)
                    && pad.index == k);
            assert(list[i] == done[i]);
        }
        if web::shows(list, k) {
            let i = choose|i: int|
                0 <= i < list.len() && (#[trigger] web::present(list[i]) matches Some(pad)
                    && pad.index == k);
            if i < done.len() {
                assert(list[i] == done[i]);
            }
        }
        assert(list[list.len() - 1] == entry);
    }
}

/// After a poll the known pads are those that the snapshot shows. What was
/// known of a pad that vanished is dropped, so that it starts afresh when it
/// comes back.
pub proof fn law_known_pads_are_the_shown_ones(
    m: Model,
    list: Seq<Option<PadReading>>,
    after: Model,
    k: u32,
)
    requires
        m.polls_to(list, after),
    ensures
        after.pads.contains_key(k) <==> web::shows(list, k),
        !web::shows(list, k) ==> after.pad(k) == PadModel::fresh(),
{
    lemma_observed_all_known(m, list, k);
    let observed = m.observed_all(list);
    let gone = choose|gone: Seq<u32>|
        {
            &&& web::lists_gone(gone, observed.pads, list)
            &&& after == #[trigger] observed.forgotten(gone)
        };
    assert(gone.contains(k) == gone.to_set().contains(k));
}

proof fn lemma_observed_all_warned(m: Model, list: Seq<Option<PadReading>>)
    ensures
        m.observed_all(list).warned == (m.warned || web::first_unmapped(list) is Some),
        m.observed_all(list).live == m.live,
    decreases list.len(),
{
    if list.len() > 0 {
        lemma_observed_all_warned(m, list.drop_last());
    }
}

/// There is one complaint about a pad without a standard mapping at most: it
/// comes only while there was none, and is remembered for good.
pub proof fn law_complains_once(m: Model, reply: Reply, after: Model, step: Step)
    requires
        m.answers(reply, after, step),
    ensures
        m.warned ==> after.warned,
        step matches Step::Return { unmapped: Some(_), .. } ==> !m.warned && after.warned,
        after.live == m.live,
{
    if let Reply::Snapshot(Some(list)) = reply {
        lemma_observed_all_warned(m, list@);
    }
}

/// Whether two entries of snapshots say the same, but for the mapping.
pub open spec fn alike(a: Option<PadReading>, b: Option<PadReading>) -> bool {
    match (a, b) {
        (Some(p), Some(q)) => {
            &&& p.index == q.index
            &&& p.connected == q.connected
            &&& p.buttons@ == q.buttons@
            &&& p.axes@ == q.axes@
        },
        (None, None) => true,
        _ => false,
    }
}

/// Whether two snapshots say the same, but for the mappings.
pub open spec fn all_alike(a: Seq<Option<PadReading>>, b: Seq<Option<PadReading>>) -> bool {
    &&& a.len() == b.len()
    &&& forall|i: int|
        #![trigger a[i]]
        #![trigger b[i]]
        0 <= i < a.len() ==> alike(a[i], b[i])
}

/// Whether two entries of snapshots say the same of all that is read: which pad
/// it is and whether it is there, how many buttons and axes it has, the flags of
/// the buttons, the values of the triggers, and the axes of the sticks.
pub open spec fn read_alike(a: Option<PadReading>, b: Option<PadReading>) -> bool {
    match (a, b) {
        (Some(p), Some(q)) => {
            &&& p.index == q.index
            &&& p.connected == q.connected
            &&& p.buttons@.len() == q.buttons@.len()
            &&& p.axes@.len() == q.axes@.len()
            &&& forall|i: int|
                0 <= i < p.buttons@.len() && i < 17 ==> {
                    &&& #[trigger] p.buttons@[i] is Some <==> q.buttons@[i] is Some
                    &&& p.buttons@[i] is Some ==> if i == 6 || i == 7 {
                        p.buttons@[i]->0.value == q.buttons@[i]->0.value
                    } else {
                        p.buttons@[i]->0.pressed == q.buttons@[i]->0.pressed
                    }
                }
            &&& forall|i: int|
                0 <= i < p.axes@.len() && i < 4 ==> #[trigger] p.axes@[i] == q.axes@[i]
        },
        (None, None) => true,
        _ => false,
    }
}

/// Whether two snapshots say the same of all that is read.
pub open spec fn all_read_alike(a: Seq<Option<PadReading>>, b: Seq<Option<PadReading>>) -> bool {
    &&& a.len() == b.len()
    &&& forall|i: int|
        #![trigger a[i]]
        #![trigger b[i]]
        0 <= i < a.len() ==> read_alike(a[i], b[i])
}

/// Whether two replies bring the same of all that is read.
pub open spec fn replies_read_alike(a: Reply, b: Reply) -> bool {
    match (a, b) {
        (Reply::Start, Reply::Start) => true,
        (Reply::Snapshot(Some(list)), Reply::Snapshot(Some(other))) => all_read_alike(
            list@,
            other@,
        ),
        (Reply::Snapshot(None), Reply::Snapshot(None)) => true,
        _ => false,
    }
}

/// Whether two replies bring the same, but for the mappings.
pub open spec fn replies_alike(a: Reply, b: Reply) -> bool {
    match (a, b) {
        (Reply::Start, Reply::Start) => true,
        (Reply::Snapshot(Some(list)), Reply::Snapshot(Some(other))) => all_alike(list@, other@),
        (Reply::Snapshot(None), Reply::Snapshot(None)) => true,
        _ => false,
    }
}

/// The pad that is complained about after what is brought.
pub open spec fn complaint(m: Model, reply: Reply) -> Option<u32> {
    match reply {
        Reply::Snapshot(Some(list)) if m.live && !m.warned => web::first_unmapped(list@),
        _ => None,
    }
}

/// A step with another complaint.
pub open spec fn complaining(step: Step, unmapped: Option<u32>) -> Step {
    match step {
        Step::TakeSnapshot => Step::TakeSnapshot,
        Step::Return { event, .. } => Step::Return { event, unmapped },
    }
}

proof fn lemma_edges_alike(
    id: Id,
    was: Seq<bool>,
    a: Seq<Option<ButtonReading>>,
    b: Seq<Option<ButtonReading>>,
    n: nat,
)
    requires
        forall|i: int| 0 <= i < n && web::button_of(i) is Some ==> web::pressed_at(a, i)
            == #[trigger] web::pressed_at(b, i),
    ensures
        web::edges(id, was, a, n) == web::edges(id, was, b, n),
    decreases n,
{
    if n > 0 {
        lemma_edges_alike(id, was, a, b, (n - 1) as nat);
        assert(web::button_of(n - 1) is Some ==> web::pressed_at(a, n - 1) == web::pressed_at(
            b,
            n - 1,
        ));
    }
}

proof fn lemma_trigger_motions_alike(
    id: Id,
    was: Seq<Single>,
    a: Seq<Option<ButtonReading>>,
    b: Seq<Option<ButtonReading>>,
    n: nat,
)
    requires
        forall|i: int| 0 <= i < n && web::trigger_axis_of(i) is Some ==> web::trigger_at(a, i)
            == #[trigger] web::trigger_at(b, i),
    ensures
        web::trigger_motions(id, was, a, n) == web::trigger_motions(id, was, b, n),
    decreases n,
{
    if n > 0 {
        lemma_trigger_motions_alike(id, was, a, b, (n - 1) as nat);
        assert(web::trigger_axis_of(n - 1) is Some ==> web::trigger_at(a, n - 1)
            == web::trigger_at(b, n - 1));
    }
}

proof fn lemma_stick_motions_alike(
    id: Id,
    was: Seq<Single>,
    a: Seq<Option<Double>>,
    b: Seq<Option<Double>>,
    n: nat,
)
    requires
        forall|i: int| 0 <= i < n && web::stick_axis_of(i) is Some ==> web::stick_at(a, i)
            == #[trigger] web::stick_at(b, i),
    ensures
        web::stick_motions(id, was, a, n) == web::stick_motions(id, was, b, n),
    decreases n,
{
    if n > 0 {
        lemma_stick_motions_alike(id, was, a, b, (n - 1) as nat);
        assert(web::stick_axis_of(n - 1) is Some ==> web::stick_at(a, n - 1) == web::stick_at(
            b,
            n - 1,
        ));
    }
}

/// Two readings of a pad that say the same of all that is read lead to the same
/// state by the same changes.
pub proof fn law_only_what_is_read_of_a_pad_matters(
    was: PadModel,
    id: Id,
    p: PadReading,
    q: PadReading,
)
    requires
        read_alike(Some(p), Some(q)),
    ensures
        was.changes(id, p) == was.changes(id, q),
        was.after(p) == was.after(q),
{
    let fitted = was.fitted(p);
    assert(fitted =~= was.fitted(q));
    assert forall|i: int| web::button_of(i) is Some implies web::pressed_at(p.buttons@, i)
        == #[trigger] web::pressed_at(q.buttons@, i) by {
        if i < p.buttons@.len() {
            assert(p.buttons@[i] is Some <==> q.buttons@[i] is Some);
        }
    }
    assert forall|i: int| web::trigger_axis_of(i) is Some implies web::trigger_at(p.buttons@, i)
        == #[trigger] web::trigger_at(q.buttons@, i) by {
        if i < p.buttons@.len() {
            assert(p.buttons@[i] is Some <==> q.buttons@[i] is Some);
        }
    }
    assert forall|i: int| web::stick_axis_of(i) is Some implies web::stick_at(p.axes@, i)
        == #[trigger] web::stick_at(q.axes@, i) by {
        if i < p.axes@.len() {
            assert(p.axes@[i] == q.axes@[i]);
        }
    }
    lemma_edges_alike(id, fitted.buttons, p.buttons@, q.buttons@, web::BUTTON_SLOTS as nat);
    lemma_trigger_motions_alike(
        id,
        fitted.triggers,
        p.buttons@,
        q.buttons@,
        web::BUTTON_SLOTS as nat,
    );
    lemma_stick_motions_alike(id, fitted.axes, p.axes@, q.axes@, web::AXIS_SLOTS as nat);
    assert forall|i: int| 0 <= i < fitted.buttons.len() implies #[trigger] was.after(p).buttons[i]
        == was.after(q).buttons[i] by {
        assert(web::button_of(i) is Some ==> web::pressed_at(p.buttons@, i) == web::pressed_at(
            q.buttons@,
            i,
        ));
    }
    assert forall|i: int| 0 <= i < fitted.triggers.len() implies #[trigger] was.after(
        p,
    ).triggers[i] == was.after(q).triggers[i] by {
        assert(web::trigger_axis_of(i) is Some ==> web::trigger_at(p.buttons@, i)
            == web::trigger_at(q.buttons@, i));
    }
    assert forall|i: int| 0 <= i < fitted.axes.len() implies #[trigger] was.after(p).axes[i]
        == was.after(q).axes[i] by {
        assert(web::stick_axis_of(i) is Some ==> web::stick_at(p.axes@, i) == web::stick_at(
            q.axes@,
            i,
        ));
    }
    assert(was.after(p).buttons =~= was.after(q).buttons);
    assert(was.after(p).triggers =~= was.after(q).triggers);
    assert(was.after(p).axes =~= was.after(q).axes);
}

proof fn lemma_observed_all_alike(
    m: Model,
    n: Model,
    list: Seq<Option<PadReading>>,
    other: Seq<Option<PadReading>>,
)
    requires
        n == (Model { warned: n.warned, ..m }),
        all_read_alike(list, other),
    ensures
        n.observed_all(other) == (Model {
            warned: n.warned || web::first_unmapped(other) is Some,
            ..m.observed_all(list)
        }),
    decreases list.len(),
{
    lemma_observed_all_warned(n, other);
    if list.len() > 0 {
        let (done, too) = (list.drop_last(), other.drop_last());
        assert(all_read_alike(done, too)) by {
            assert forall|i: int|
                #![trigger done[i]]
                #![trigger too[i]]
                0 <= i < done.len() implies read_alike(done[i], too[i]) by {
                assert(done[i] == list[i] && too[i] == other[i]);
            }
        }
        lemma_observed_all_alike(m, n, done, too);
        assert(list[list.len() - 1] == list.last() && other[list.len() - 1] == other.last());
        assert(read_alike(list.last(), other.last()));
        if let (Some(p), Some(q)) = (web::present(list.last()), web::present(other.last())) {
            let state = m.observed_all(done).greeted(p.index).pad(p.index);
            law_only_what_is_read_of_a_pad_matters(state, Id(p.index), p, q);
        }
    }
}

proof fn lemma_shows_alike(
    list: Seq<Option<PadReading>>,
    other: Seq<Option<PadReading>>,
    k: u32,
)
    requires
        all_read_alike(list, other),
        web::shows(list, k),
    ensures
        web::shows(other, k),
{
    let i = choose|i: int|
        0 <= i < list.len() && (#[trigger] web::present(list[i]) matches Some(pad) && pad.index
            == k);
    assert(read_alike(list[i], other[i]));
    assert(web::present(other[i]) matches Some(pad) && pad.index == k);
}

proof fn lemma_polls_alike(
    m: Model,
    n: Model,
    list: Seq<Option<PadReading>>,
    other: Seq<Option<PadReading>>,
    after: Model,
)
    requires
        n == (Model { warned: n.warned, ..m }),
        all_read_alike(list, other),
        m.polls_to(list, after),
    ensures
        n.polls_to(
            other,
            Model { warned: n.warned || web::first_unmapped(other) is Some, ..after },
        ),
{
    let observed = m.observed_all(list);
    let gone = choose|gone: Seq<u32>|
        {
            &&& web::lists_gone(gone, observed.pads, list)
            &&& after == #[trigger] observed.forgotten(gone)
        };
    lemma_observed_all_alike(m, n, list, other);
    assert forall|k: u32| #[trigger] gone.contains(k) <==> observed.pads.contains_key(k)
        && !web::shows(other, k) by {
        if web::shows(list, k) {
            lemma_shows_alike(list, other, k);
        }
        if web::shows(other, k) {
            lemma_shows_alike(other, list, k);
        }
    }
    assert(web::lists_gone(gone, n.observed_all(other).pads, other));
    assert(n.observed_all(other).forgotten(gone) == (Model {
        warned: n.warned || web::first_unmapped(other) is Some,
        ..after
    }));
}

/// Of a snapshot only what is read matters. Whether a trigger counts as pressed,
/// how far down a button is, and what is past the standard mapping make no
/// difference; whether there is a standard mapping makes one for the complaint
/// alone.
pub proof fn law_only_what_is_read_matters(
    m: Model,
    n: Model,
    reply: Reply,
    other: Reply,
    after: Model,
    step: Step,
)
    requires
        n == (Model { warned: n.warned, ..m }),
        replies_read_alike(reply, other),
        m.answers(reply, after, step),
    ensures
        n.answers(
            other,
            Model { warned: n.warned || complaint(n, other) is Some, ..after },
            complaining(step, complaint(n, other)),
        ),
{
    if m.live {
        if let (Reply::Snapshot(Some(list)), Reply::Snapshot(Some(too))) = (reply, other) {
            let polled = choose|polled: Model|
                {
                    &&& #[trigger] m.polls_to(list@, polled)
                    &&& after == polled.popped()
                    &&& step == (Step::Return {
                        event: polled.first(),
                        unmapped: if m.warned {
                            None
                        } else {
                            web::first_unmapped(list@)
                        },
                    })
                };
            lemma_polls_alike(m, n, list@, too@, polled);
            let same = Model { warned: n.warned || web::first_unmapped(too@) is Some, ..polled };
            assert(n.polls_to(too@, same));
        }
    }
}

/// Whether pads have a standard mapping matters for the complaint and nothing
/// else: wherever it differs, now or in what was complained about before, the
/// same may follow, with the complaint that is due.
pub proof fn law_mapping_changes_only_the_complaint(
    m: Model,
    n: Model,
    reply: Reply,
    other: Reply,
    after: Model,
    step: Step,
)
    requires
        n == (Model { warned: n.warned, ..m }),
        replies_alike(reply, other),
        m.answers(reply, after, step),
    ensures
        n.answers(
            other,
            Model { warned: n.warned || complaint(n, other) is Some, ..after },
            complaining(step, complaint(n, other)),
        ),
{
    law_only_what_is_read_matters(m, n, reply, other, after, step);
}

/// The state after some number of events were handed out.
pub open spec fn popped_times(m: Model, n: nat) -> Model
    decreases n,
{
    if n == 0 {
        m
    } else {
        popped_times(m, (n - 1) as nat).popped()
    }
}

/// Queued events are handed out in their order, one by one, and only once they
/// all were is another snapshot asked for.
pub proof fn law_queue_is_drained_in_order(m: Model, n: nat, after: Model, step: Step)
    requires
        m.live,
        n <= m.queue.len(),
        popped_times(m, n).answers(Reply::Start, after, step),
    ensures
        n < m.queue.len() ==> step == (Step::Return {
            event: Some(m.queue[n as int]),
            unmapped: None,
        }) && after == popped_times(m, n + 1),
        n == m.queue.len() ==> step == Step::TakeSnapshot && after.pads == m.pads,
{
    lemma_popped_times(m, n);
}

proof fn lemma_popped_times(m: Model, n: nat)
    requires
        n <= m.queue.len(),
    ensures
        popped_times(m, n) == (Model { queue: m.queue.skip(n as int), ..m }),
    decreases n,
{
    if n == 0 {
        assert(m.queue.skip(0) =~= m.queue);
    } else {
        lemma_popped_times(m, (n - 1) as nat);
        assert(m.queue.skip(n - 1).drop_first() =~= m.queue.skip(n as int));
    }
}

} // verus!
