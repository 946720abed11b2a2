//! What the browser backend makes of snapshots that do not change.

use crate::ieee::{Double, Single};
use crate::laws::values;
use crate::motion;
use crate::web;
use crate::web::{ButtonReading, Model, PadModel, PadReading};
use crate::{Axis, Event, Id};
use vstd::prelude::*;

verus! {

/// After a snapshot the state is what the snapshot says, of every control that
/// it can be read of: the buttons exactly, and the axes to within less than
/// what counts as motion. A reading that is not a number counts as none.
pub proof fn law_state_follows_snapshot(was: PadModel, pad: PadReading, i: int)
    ensures
        web::button_of(i) is Some ==> (web::pressed_at(pad.buttons@, i) matches Some(pressed)
            ==> was.after(pad).buttons[i] == pressed),
        web::trigger_axis_of(i) is Some ==> (web::trigger_at(pad.buttons@, i) matches Some(value)
            ==> !motion::moved(value, was.after(pad).triggers[i])),
        web::stick_axis_of(i) is Some ==> (web::stick_at(pad.axes@, i) matches Some(value)
            ==> !motion::moved(value, was.after(pad).axes[i])),
{
    if let Some(value) = web::trigger_at(pad.buttons@, i) {
        values::law_rest_is_no_motion(value);
    }
    if let Some(value) = web::stick_at(pad.axes@, i) {
        values::law_rest_is_no_motion(value);
    }
}

/// Where an axis was last reported does not change again.
proof fn lemma_settled_twice(axis: Option<Axis>, was: Single, now: Option<Single>, id: Id)
    ensures
        web::settled(axis, web::settled(axis, was, now), now) == web::settled(axis, was, now),
        web::motion_of(id, axis, web::settled(axis, was, now), now) == Seq::<Event>::empty(),
{
    if let Some(value) = now {
        values::law_rest_is_no_motion(value);
    }
}

proof fn lemma_no_edges(id: Id, was: Seq<bool>, buttons: Seq<Option<ButtonReading>>, n: nat)
    requires
        was.len() == buttons.len(),
    ensures
        web::edges(id, web::pressed_after(was, buttons), buttons, n) == Seq::<Event>::empty(),
    decreases n,
{
    if n > 0 {
        lemma_no_edges(id, was, buttons, (n - 1) as nat);
    }
}

proof fn lemma_no_trigger_motions(
    id: Id,
    was: Seq<Single>,
    buttons: Seq<Option<ButtonReading>>,
    n: nat,
)
    requires
        was.len() == buttons.len(),
    ensures
        web::trigger_motions(id, web::triggers_after(was, buttons), buttons, n) == Seq::<
            Event,
        >::empty(),
    decreases n,
{
    if n > 0 {
        lemma_no_trigger_motions(id, was, buttons, (n - 1) as nat);
        lemma_settled_twice(
            web::trigger_axis_of(n - 1),
            was[n - 1],
            web::trigger_at(buttons, n - 1),
            id,
        );
    }
}

proof fn lemma_no_stick_motions(id: Id, was: Seq<Single>, axes: Seq<Option<Double>>, n: nat)
    requires
        was.len() == axes.len(),
    ensures
        web::stick_motions(id, web::sticks_after(was, axes), axes, n) == Seq::<Event>::empty(),
    decreases n,
{
    if n > 0 {
        lemma_no_stick_motions(id, was, axes, (n - 1) as nat);
        lemma_settled_twice(
            web::stick_axis_of(n - 1),
            was[n - 1],
            web::stick_at(axes, n - 1),
            id,
        );
    }
}

/// Whether a snapshot of a pad has nothing new.
pub open spec fn nothing_new(state: PadModel, pad: PadReading) -> bool {
    &&& state.after(pad) == state
    &&& state.changes(Id(pad.index), pad) == Seq::<Event>::empty()
}

/// The same snapshot of a pad, taken over once, has nothing new.
pub proof fn law_second_look_has_nothing_new(was: PadModel, pad: PadReading)
    ensures
        nothing_new(was.after(pad), pad),
{
    let id = Id(pad.index);
    let once = was.after(pad);
    let fitted = was.fitted(pad);
    assert(once.fitted(pad) =~= once);
    assert(once.after(pad) =~= once) by {
        assert forall|i: int| 0 <= i < once.triggers.len() implies once.after(pad).triggers[i]
            == once.triggers[i] by {
            lemma_settled_twice(
                web::trigger_axis_of(i),
                fitted.triggers[i],
                web::trigger_at(pad.buttons@, i),
                id,
            );
        }
        assert forall|i: int| 0 <= i < once.axes.len() implies once.after(pad).axes[i]
            == once.axes[i] by {
            lemma_settled_twice(
                web::stick_axis_of(i),
                fitted.axes[i],
                web::stick_at(pad.axes@, i),
                id,
            );
        }
        assert(once.after(pad).triggers =~= once.triggers);
        assert(once.after(pad).axes =~= once.axes);
        assert(once.after(pad).buttons =~= once.buttons);
    }
    lemma_no_edges(id, fitted.buttons, pad.buttons@, web::BUTTON_SLOTS as nat);
    lemma_no_trigger_motions(id, fitted.triggers, pad.buttons@, web::BUTTON_SLOTS as nat);
    lemma_no_stick_motions(id, fitted.axes, pad.axes@, web::AXIS_SLOTS as nat);
}

/// Whether two entries say the same of their buttons and axes.
pub open spec fn same_reading(p: PadReading, q: PadReading) -> bool {
    &&& p.buttons@ == q.buttons@
    &&& p.axes@ == q.axes@
}

proof fn lemma_same_reading(state: PadModel, p: PadReading, q: PadReading)
    requires
        p.index == q.index,
        same_reading(p, q),
    ensures
        state.after(p) == state.after(q),
        nothing_new(state, p) == nothing_new(state, q),
{
    assert(state.fitted(p) =~= state.fitted(q));
}

/// Whether a snapshot says the same of a pad wherever it has it.
pub open spec fn one_reading_each(list: Seq<Option<PadReading>>) -> bool {
    forall|i: int, j: int|
        0 <= i < j < list.len() ==> match (
            #[trigger] web::present(list[i]),
            #[trigger] web::present(list[j]),
        ) {
            (Some(p), Some(q)) => p.index == q.index ==> same_reading(p, q),
            _ => true,
        }
}

/// Whether a snapshot has nothing new of any of its pads.
pub open spec fn all_old(m: Model, list: Seq<Option<PadReading>>) -> bool {
    forall|i: int|
        0 <= i < list.len() ==> (#[trigger] web::present(list[i]) matches Some(pad)
            ==> m.pads.contains_key(pad.index) && nothing_new(m.pads[pad.index], pad) && (
        !pad.standard ==> m.warned))
}

proof fn lemma_observed_all_old(m: Model, list: Seq<Option<PadReading>>)
    requires
        one_reading_each(list),
    ensures
        all_old(m.observed_all(list), list),
    decreases list.len(),
{
    if list.len() > 0 {
        let (done, entry) = (list.drop_last(), list.last());
        assert(one_reading_each(done)) by {
            assert forall|i: int, j: int| 0 <= i < j < done.len() implies match (
                #[trigger] web::present(done[i]),
                #[trigger] web::present(done[j]),
            ) {
                (Some(p), Some(q)) => p.index == q.index ==> same_reading(p, q),
                _ => true,
            } by {
                assert(list[i] == done[i] && list[j] == done[j]);
            }
        }
        lemma_observed_all_old(m, done);
        let (before, after) = (m.observed_all(done), m.observed_all(list));
        assert forall|i: int| 0 <= i < list.len() implies (#[trigger] web::present(
            list[i],
        ) matches Some(pad) ==> after.pads.contains_key(pad.index) && nothing_new(
            after.pads[pad.index],
            pad,
        ) && (!pad.standard ==> after.warned)) by {
            if let Some(pad) = web::present(list[i]) {
                if i < done.len() {
                    assert(done[i] == list[i]);
                    assert(web::present(done[i]) == Some(pad));
                    assert(list[list.len() - 1] == entry);
                    assert(web::present(list[list.len() - 1]) == web::present(entry));
                    if let Some(last) = web::present(entry) {
                        if last.index == pad.index {
                            lemma_same_reading(before.pads[pad.index], pad, last);
                        }
                    }
                } else {
                    law_second_look_has_nothing_new(before.greeted(pad.index).pad(pad.index), pad);
                }
            }
        }
    }
}

proof fn lemma_all_old_is_observed_as_is(m: Model, list: Seq<Option<PadReading>>)
    requires
        all_old(m, list),
    ensures
        m.observed_all(list) == m,
    decreases list.len(),
{
    if list.len() > 0 {
        let (done, entry) = (list.drop_last(), list.last());
        assert(all_old(m, done)) by {
            assert forall|i: int| 0 <= i < done.len() implies (#[trigger] web::present(
                done[i],
            ) matches Some(pad) ==> m.pads.contains_key(pad.index) && nothing_new(
                m.pads[pad.index],
                pad,
            ) && (!pad.standard ==> m.warned)) by {
                assert(list[i] == done[i]);
            }
        }
        lemma_all_old_is_observed_as_is(m, done);
        assert(list[list.len() - 1] == entry);
        assert(web::present(list[list.len() - 1]) == web::present(entry));
        if let Some(pad) = web::present(entry) {
            assert(m.observed(entry).pads =~= m.pads);
            assert(m.observed(entry).queue =~= m.queue);
            assert(m.observed(entry) =~= m);
        }
    }
}

/// A snapshot that is taken again unchanged causes no event and changes
/// nothing. It must not say two things of one pad.
pub proof fn law_unchanged_snapshot_is_silent(
    m: Model,
    list: Seq<Option<PadReading>>,
    once: Model,
    twice: Model,
)
    requires
        one_reading_each(list),
        m.polls_to(list, once),
        once.polls_to(list, twice),
    ensures
        twice == once,
{
    let observed = m.observed_all(list);
    lemma_observed_all_old(m, list);
    let gone = choose|gone: Seq<u32>|
        {
            &&& web::lists_gone(gone, observed.pads, list)
            &&& once == #[trigger] observed.forgotten(gone)
        };
    assert(all_old(once, list)) by {
        assert forall|i: int| 0 <= i < list.len() implies (#[trigger] web::present(
            list[i],
        ) matches Some(pad) ==> once.pads.contains_key(pad.index) && nothing_new(
            once.pads[pad.index],
            pad,
        ) && (!pad.standard ==> once.warned)) by {
            if let Some(pad) = web::present(list[i]) {
                assert(web::shows(list, pad.index));
                assert(gone.contains(pad.index) == gone.to_set().contains(pad.index));
            }
        }
    }
    lemma_all_old_is_observed_as_is(once, list);
    let again = choose|gone: Seq<u32>|
        {
            &&& web::lists_gone(gone, once.pads, list)
            &&& twice == #[trigger] once.forgotten(gone)
        };
    assert(again.len() == 0) by {
        if again.len() > 0 {
            let k = again[0];
            assert(again.contains(k));
            crate::laws::web::law_known_pads_are_the_shown_ones(m, list, once, k);
        }
    }
    assert(twice.pads =~= once.pads);
    assert(twice.queue =~= once.queue);
}

} // verus!
