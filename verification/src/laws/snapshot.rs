//! What the browser backend makes of a whole snapshot.

use crate::laws::mirror;
use crate::laws::mirror::Held;
use crate::laws::reading;
use crate::web;
use crate::web::{Model, PadModel, PadReading, Reply, Step};
use crate::{Button, Event, EventKind, Id};
use vstd::prelude::*;

verus! {

/// Whether an entry of a snapshot is a pad that is there, of this index.
pub open spec fn there(entry: Option<PadReading>, index: u32) -> bool {
    entry matches Some(pad) && pad.connected && pad.index == index
}

/// Whether a snapshot has a pad of this index.
pub open spec fn seen(list: Seq<Option<PadReading>>, index: u32) -> bool {
    exists|i: int| 0 <= i < list.len() && there(#[trigger] list[i], index)
}

/// Whether some events follow others on a queue.
pub open spec fn queued(a: Model, events: Seq<Event>, b: Model) -> bool {
    b.queue == a.queue + events
}

/// Whether one state follows another by an entry of a snapshot: a hole changes
/// nothing. A pad that was not known is announced, and starts at rest; then
/// just its changes are told. No other pad is touched.
pub open spec fn entry_taken(a: Model, entry: Option<PadReading>, b: Model) -> bool {
    match entry {
        Some(pad) => if !pad.connected {
            b == a
        } else {
            let id = Id(pad.index);
            &&& b.live == a.live
            &&& b.warned == (a.warned || !pad.standard)
            &&& b.pads.contains_key(pad.index)
            &&& forall|k: u32|
                k != pad.index ==> (#[trigger] b.pads.contains_key(k) <==> a.pads.contains_key(k))
            &&& forall|k: u32|
                k != pad.index && #[trigger] a.pads.contains_key(k) ==> b.pads[k] == a.pads[k]
            &&& exists|events: Seq<Event>|
                {
                    let now = b.pads[pad.index];
                    let blank = PadModel {
                        buttons: Seq::empty(),
                        axes: Seq::empty(),
                        triggers: Seq::empty(),
                    };
                    if a.pads.contains_key(pad.index) {
                        &&& #[trigger] queued(a, events, b)
                        &&& reading::faithful(a.pads[pad.index], id, pad, events, now)
                    } else {
                        &&& queued(a, events, b)
                        &&& events.len() > 0
                        &&& events[0] == Event { id, kind: EventKind::Connected }
                        &&& reading::faithful(blank, id, pad, events.skip(1), now)
                    }
                }
        },
        None => b == a,
    }
}

/// Whether states follow one another by the entries of a snapshot in turn.
pub open spec fn walked(m: Model, list: Seq<Option<PadReading>>, states: Seq<Model>) -> bool {
    &&& states.len() == list.len() + 1
    &&& states[0] == m
    &&& forall|i: int|
        #![trigger list[i]]
        0 <= i < list.len() ==> entry_taken(states[i], list[i], states[i + 1])
}

/// Whether some events say of each pad that is known but not seen that it went,
/// once and nothing else.
pub open spec fn farewells(
    a: Model,
    list: Seq<Option<PadReading>>,
    events: Seq<Event>,
) -> bool {
    &&& forall|i: int|
        0 <= i < events.len() ==> {
            &&& (#[trigger] events[i]).kind is Disconnected
            &&& a.pads.contains_key(events[i].id.0)
            &&& !seen(list, events[i].id.0)
        }
    &&& forall|i: int, j: int|
        0 <= i < j < events.len() ==> (#[trigger] events[i]).id != (#[trigger] events[j]).id
    &&& forall|k: u32| #[trigger]
        a.pads.contains_key(k) && !seen(list, k) ==> events.contains(
            Event { id: Id(k), kind: EventKind::Disconnected },
        )
}

/// Whether one state follows another by forgetting the pads that a snapshot
/// does not have, and saying so.
pub open spec fn vanished(a: Model, list: Seq<Option<PadReading>>, b: Model) -> bool {
    &&& b.live == a.live
    &&& b.warned == a.warned
    &&& forall|k: u32| #[trigger]
        b.pads.contains_key(k) <==> a.pads.contains_key(k) && seen(list, k)
    &&& forall|k: u32| #[trigger] b.pads.contains_key(k) ==> b.pads[k] == a.pads[k]
    &&& exists|events: Seq<Event>| #[trigger] queued(a, events, b) && farewells(a, list, events)
}

/// Whether one state follows another by a poll.
pub open spec fn polled(m: Model, list: Seq<Option<PadReading>>, after: Model) -> bool {
    exists|states: Seq<Model>| #[trigger]
        walked(m, list, states) && vanished(states[list.len() as int], list, after)
}

/// Whether an event is the first that a state has queued, and another state is
/// that one without it.
pub open spec fn hands_out(m: Model, event: Option<Event>, after: Model) -> bool {
    &&& after.live == m.live
    &&& after.pads == m.pads
    &&& after.warned == m.warned
    &&& if m.queue.len() == 0 {
        event is None && after.queue == m.queue
    } else {
        event == Some(m.queue[0]) && m.queue == seq![m.queue[0]] + after.queue
    }
}

/// Whether an entry of a snapshot is a pad that is there and has no standard
/// mapping.
pub open spec fn unmapped(entry: Option<PadReading>) -> bool {
    entry matches Some(pad) && pad.connected && !pad.standard
}

/// Whether a complaint is the one that is due: about the first pad without a
/// standard mapping, if there was no complaint yet.
pub open spec fn due(m: Model, list: Seq<Option<PadReading>>, complaint: Option<u32>) -> bool {
    match complaint {
        None => m.warned || forall|i: int|
            0 <= i < list.len() ==> !unmapped(#[trigger] list[i]),
        Some(k) => !m.warned && exists|i: int|
            {
                &&& 0 <= i < list.len()
                &&& unmapped(#[trigger] list[i])
                &&& list[i]->0.index == k
                &&& forall|j: int| 0 <= j < i ==> !unmapped(#[trigger] list[j])
            },
    }
}

proof fn lemma_shows_is_seen(list: Seq<Option<PadReading>>, k: u32)
    ensures
        web::shows(list, k) <==> seen(list, k),
{
    if web::shows(list, k) {
        let i = choose|i: int|
            0 <= i < list.len() && (#[trigger] web::present(list[i]) matches Some(pad) && pad.index
                == k);
        assert(there(list[i], k));
    }
    if seen(list, k) {
        let i = choose|i: int| 0 <= i < list.len() && there(#[trigger] list[i], k);
        assert(web::present(list[i]) matches Some(pad) && pad.index == k);
    }
}

/// The pad to complain about is the first that is there and has no standard
/// mapping.
pub proof fn law_first_unmapped(list: Seq<Option<PadReading>>)
    ensures
        match web::first_unmapped(list) {
            None => forall|i: int| 0 <= i < list.len() ==> !unmapped(#[trigger] list[i]),
            Some(k) => exists|i: int|
                {
                    &&& 0 <= i < list.len()
                    &&& unmapped(#[trigger] list[i])
                    &&& list[i]->0.index == k
                    &&& forall|j: int| 0 <= j < i ==> !unmapped(#[trigger] list[j])
                },
        },
    decreases list.len(),
{
    if list.len() > 0 {
        let (done, last) = (list.drop_last(), list.len() - 1);
        law_first_unmapped(done);
        assert forall|j: int| 0 <= j < last implies done[j] == #[trigger] list[j] by {}
        match web::first_unmapped(done) {
            Some(k) => {
                let i = choose|i: int|
                    {
                        &&& 0 <= i < done.len()
                        &&& unmapped(#[trigger] done[i])
                        &&& done[i]->0.index == k
                        &&& forall|j: int| 0 <= j < i ==> !unmapped(#[trigger] done[j])
                    };
                assert(unmapped(list[i]));
                assert forall|j: int| 0 <= j < i implies !unmapped(#[trigger] list[j]) by {
                    assert(!unmapped(done[j]));
                }
            },
            None => {
                assert forall|j: int| 0 <= j < last implies !unmapped(#[trigger] list[j]) by {
                    assert(!unmapped(done[j]));
                }
                assert(list[last] == list.last());
            },
        }
    }
}

/// One entry of a snapshot does what it calls for.
proof fn lemma_entry_taken(a: Model, entry: Option<PadReading>)
    requires
        a.wf(),
    ensures
        entry_taken(a, entry, a.observed(entry)),
        a.observed(entry).wf(),
{
    let b = a.observed(entry);
    if let Some(pad) = web::present(entry) {
        let id = Id(pad.index);
        let greeted = a.greeted(pad.index);
        let was = greeted.pad(pad.index);
        let changes = was.changes(id, pad);
        assert(was.wf()) by {
            if a.pads.contains_key(pad.index) {
                assert(a.pads[pad.index].wf());
            }
        }
        reading::law_changes_are_faithful(was, id, pad);
        if a.pads.contains_key(pad.index) {
            assert(queued(a, changes, b));
        } else {
            let events = seq![Event { id, kind: EventKind::Connected }] + changes;
            assert(b.queue =~= a.queue + events);
            assert(queued(a, events, b));
            assert(events.skip(1) =~= changes);
        }
        assert forall|k: u32| #[trigger] b.pads.contains_key(k) implies b.pads[k].wf() by {
            if k != pad.index {
                assert(a.pads.contains_key(k));
            }
        }
    }
}

proof fn lemma_observed_all_wf(m: Model, list: Seq<Option<PadReading>>)
    requires
        m.wf(),
    ensures
        m.observed_all(list).wf(),
    decreases list.len(),
{
    if list.len() > 0 {
        lemma_observed_all_wf(m, list.drop_last());
        lemma_entry_taken(m.observed_all(list.drop_last()), list.last());
    }
}

proof fn lemma_forgotten(a: Model, gone: Seq<u32>)
    ensures
        ({
            let b = a.forgotten(gone);
            let events = b.queue.skip(a.queue.len() as int);
            &&& queued(a, events, b)
            &&& events.len() == gone.len()
            &&& forall|i: int|
                0 <= i < gone.len() ==> #[trigger] events[i] == (Event {
                    id: Id(gone[i]),
                    kind: EventKind::Disconnected,
                })
            &&& forall|k: u32| #[trigger]
                b.pads.contains_key(k) <==> a.pads.contains_key(k) && !gone.contains(k)
            &&& forall|k: u32| #[trigger] b.pads.contains_key(k) ==> b.pads[k] == a.pads[k]
            &&& b.live == a.live
            &&& b.warned == a.warned
        }),
{
    let b = a.forgotten(gone);
    let events = b.queue.skip(a.queue.len() as int);
    assert(b.queue =~= a.queue + events);
    assert forall|k: u32| gone.to_set().contains(k) == #[trigger] gone.contains(k) by {}
    assert forall|k: u32| #[trigger]
        b.pads.contains_key(k) <==> a.pads.contains_key(k) && !gone.contains(k) by {
        assert(gone.to_set().contains(k) == gone.contains(k));
    }
}

/// A poll takes the entries of its snapshot in turn, each for what it calls for,
/// and then forgets the pads that it does not have.
pub proof fn law_poll_is_faithful(m: Model, list: Seq<Option<PadReading>>, after: Model)
    requires
        m.wf(),
        m.polls_to(list, after),
    ensures
        polled(m, list, after),
{
    let states = Seq::new(list.len() + 1, |i: int| m.observed_all(list.take(i)));
    assert(list.take(0) =~= Seq::empty());
    assert forall|i: int|
        #![trigger list[i]]
        0 <= i < list.len() implies entry_taken(states[i], list[i], states[i + 1]) by {
        let next = list.take(i + 1);
        assert(next.drop_last() =~= list.take(i));
        assert(next.last() == list[i]);
        lemma_observed_all_wf(m, list.take(i));
        lemma_entry_taken(m.observed_all(list.take(i)), list[i]);
    }
    assert(walked(m, list, states));
    assert(list.take(list.len() as int) =~= list);
    let a = m.observed_all(list);
    assert(states[list.len() as int] == a);
    let gone = choose|gone: Seq<u32>|
        {
            &&& web::lists_gone(gone, a.pads, list)
            &&& after == #[trigger] a.forgotten(gone)
        };
    lemma_forgotten(a, gone);
    let events = after.queue.skip(a.queue.len() as int);
    assert forall|k: u32| web::shows(list, k) == #[trigger] seen(list, k) by {
        lemma_shows_is_seen(list, k);
    }
    assert forall|i: int| 0 <= i < events.len() implies {
        &&& (#[trigger] events[i]).kind is Disconnected
        &&& a.pads.contains_key(events[i].id.0)
        &&& !seen(list, events[i].id.0)
    } by {
        assert(gone.contains(gone[i]));
        assert(seen(list, gone[i]) == web::shows(list, gone[i]));
    }
    assert forall|i: int, j: int| 0 <= i < j < events.len() implies (#[trigger] events[i]).id != (
    #[trigger] events[j]).id by {
        assert(gone[i] != gone[j]);
    }
    assert forall|k: u32| #[trigger] a.pads.contains_key(k) && !seen(
        list,
        k,
    ) implies events.contains(Event { id: Id(k), kind: EventKind::Disconnected }) by {
        assert(!web::shows(list, k));
        assert(gone.contains(k));
        let i = choose|i: int| 0 <= i < gone.len() && gone[i] == k;
        assert(events[i] == (Event { id: Id(k), kind: EventKind::Disconnected }));
    }
    assert forall|k: u32| #[trigger]
        after.pads.contains_key(k) <==> a.pads.contains_key(k) && seen(list, k) by {
        assert(seen(list, k) == web::shows(list, k));
        assert(gone.contains(k) <==> a.pads.contains_key(k) && !web::shows(list, k));
    }
    assert(farewells(a, list, events));
    assert(vanished(a, list, after));
}

/// A snapshot that is brought is polled, and the first event of what is queued
/// then is handed out, with the complaint that is due.
pub proof fn law_snapshot_is_polled(
    m: Model,
    list: Vec<Option<PadReading>>,
    after: Model,
    step: Step,
)
    requires
        m.wf(),
        m.live,
        m.answers(Reply::Snapshot(Some(list)), after, step),
    ensures
        step matches Step::Return { event, unmapped } && due(m, list@, unmapped) && exists|p: Model|
            #[trigger] polled(m, list@, p) && hands_out(p, event, after),
{
    let p = choose|p: Model|
        {
            &&& #[trigger] m.polls_to(list@, p)
            &&& after == p.popped()
            &&& step == (Step::Return {
                event: p.first(),
                unmapped: if m.warned {
                    None
                } else {
                    web::first_unmapped(list@)
                },
            })
        };
    law_poll_is_faithful(m, list@, p);
    law_first_unmapped(list@);
    lemma_popped_hands_out(p);
}

proof fn lemma_popped_hands_out(m: Model)
    ensures
        hands_out(m, m.first(), m.popped()),
{
    if m.queue.len() > 0 {
        assert(m.queue =~= seq![m.queue[0]] + m.popped().queue);
    }
}

/// Without a snapshot nothing is polled: what is queued is handed out in turn,
/// a snapshot is asked for where there is nothing, and a backend that is not
/// live does nothing at all.
pub proof fn law_nothing_is_polled_without_a_snapshot(
    m: Model,
    reply: Reply,
    after: Model,
    step: Step,
)
    requires
        m.answers(reply, after, step),
        !(reply matches Reply::Snapshot(Some(_))) || !m.live,
    ensures
        m.live && reply is Start && m.queue.len() == 0 <==> step is TakeSnapshot,
        step is TakeSnapshot || !m.live ==> after == m,
        step matches Step::Return { event, unmapped } ==> unmapped is None && if m.live {
            hands_out(m, event, after)
        } else {
            event is None
        },
{
    lemma_popped_hands_out(m);
}

/// A pad that is diffed by itself is not announced: just its changes are queued,
/// and only what is known of it changes.
pub proof fn law_diff_is_faithful(m: Model, index: u32, pad: PadReading)
    requires
        m.wf(),
    ensures
        ({
            let b = m.diffed(index, pad);
            let was = if m.pads.contains_key(index) {
                m.pads[index]
            } else {
                PadModel { buttons: Seq::empty(), axes: Seq::empty(), triggers: Seq::empty() }
            };
            let events = b.queue.skip(m.queue.len() as int);
            &&& b.live == m.live
            &&& b.warned == m.warned
            &&& queued(m, events, b)
            &&& b.pads == m.pads.insert(index, b.pads[index])
            &&& reading::faithful(was, Id(index), pad, events, b.pads[index])
        }),
{
    let was = m.pad(index);
    let b = m.diffed(index, pad);
    assert(was.wf()) by {
        if m.pads.contains_key(index) {
            assert(m.pads[index].wf());
        }
    }
    reading::law_changes_are_faithful(was, Id(index), pad);
    assert(b.queue.skip(m.queue.len() as int) =~= was.changes(Id(index), pad));
    assert(b.queue =~= m.queue + was.changes(Id(index), pad));
}

/// Pads that are forgotten are not known any more, and are said to be gone in
/// the order given; all others stay as they are.
pub proof fn law_forgetting_says_so(m: Model, gone: Seq<u32>)
    ensures
        ({
            let b = m.forgotten(gone);
            let events = b.queue.skip(m.queue.len() as int);
            &&& queued(m, events, b)
            &&& events.len() == gone.len()
            &&& forall|i: int|
                0 <= i < gone.len() ==> #[trigger] events[i] == (Event {
                    id: Id(gone[i]),
                    kind: EventKind::Disconnected,
                })
            &&& forall|k: u32| #[trigger]
                b.pads.contains_key(k) <==> m.pads.contains_key(k) && !gone.contains(k)
            &&& forall|k: u32| #[trigger] b.pads.contains_key(k) ==> b.pads[k] == m.pads[k]
            &&& b.live == m.live
            &&& b.warned == m.warned
        }),
{
    lemma_forgotten(m, gone);
}

/// What is known of a pad that later entries do not have stays as it is.
proof fn lemma_later_entries(m: Model, list: Seq<Option<PadReading>>, p: int, index: u32)
    requires
        0 <= p < list.len(),
        forall|j: int| p < j < list.len() ==> !there(#[trigger] list[j], index),
    ensures
        m.observed_all(list).pad(index) == m.observed_all(list.take(p + 1)).pad(index),
    decreases list.len(),
{
    if p == list.len() - 1 {
        assert(list.take(p + 1) =~= list);
    } else {
        let done = list.drop_last();
        assert forall|j: int| p < j < done.len() implies !there(#[trigger] done[j], index) by {
            assert(done[j] == list[j]);
        }
        lemma_later_entries(m, done, p, index);
        assert(done.take(p + 1) =~= list.take(p + 1));
        assert(!there(list[list.len() - 1], index));
        crate::laws::web::law_pads_are_kept_apart(m.observed_all(done), list.last(), index);
    }
}

/// After a poll, a button of a pad is down just if the last entry of the pad has
/// its flag set, where that entry has the button: in what is known of the pad,
/// and for a caller that replays the events.
pub proof fn law_buttons_follow_their_flags(
    held: Held,
    m: Model,
    list: Seq<Option<PadReading>>,
    after: Model,
    p: int,
    button: Button,
)
    requires
        m.wf(),
        m.polls_to(list, after),
        0 <= p < list.len(),
        list[p] matches Some(pad) && pad.connected,
        forall|j: int| p < j < list.len() ==> !there(#[trigger] list[j], list[p]->0.index),
        0 <= reading::button_index(button) < list[p]->0.buttons@.len(),
        list[p]->0.buttons@[reading::button_index(button)] is Some,
        mirror::mirrors(held, list[p]->0.index, after),
    ensures
        ({
            let (pad, i) = (list[p]->0, reading::button_index(button));
            let pressed = pad.buttons@[i]->0.pressed;
            &&& after.pads.contains_key(pad.index)
            &&& after.pads[pad.index].buttons[i] == pressed
            &&& held.after_all(pad.index, after.queue).down.contains(button) == pressed
        }),
{
    let (pad, i) = (list[p]->0, reading::button_index(button));
    let index = pad.index;
    let before = m.observed_all(list.take(p));
    let next = list.take(p + 1);
    assert(next.drop_last() =~= list.take(p));
    assert(next.last() == list[p]);
    lemma_observed_all_wf(m, list.take(p));
    lemma_later_entries(m, list, p, index);
    let was = before.greeted(index).pad(index);
    assert(was.wf()) by {
        if before.pads.contains_key(index) {
            assert(before.pads[index].wf());
        }
    }
    reading::law_changes_are_faithful(was, Id(index), pad);
    assert(reading::button_faithful(
        was,
        Id(index),
        pad,
        was.changes(Id(index), pad),
        was.after(pad),
        button,
    ));
    assert(there(list[p], index));
    lemma_shows_is_seen(list, index);
    crate::laws::web::law_known_pads_are_the_shown_ones(m, list, after, index);
    let a = m.observed_all(list);
    let gone = choose|gone: Seq<u32>|
        {
            &&& web::lists_gone(gone, a.pads, list)
            &&& after == #[trigger] a.forgotten(gone)
        };
    lemma_forgotten(a, gone);
    let state = after.pads[index];
    assert(a.pads.contains_key(index));
    assert(state == was.after(pad));
    if state.buttons[i] {
        assert(mirror::down_at(state.buttons, i, button));
    } else if mirror::held_by(state).down.contains(button) {
        let j = choose|j: int| #[trigger] mirror::down_at(state.buttons, j, button);
        assert(j == i);
    }
}

} // verus!
