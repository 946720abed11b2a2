//! The browser backend, over the Gamepad API.
//!
//! The browser has no event for a button press or a stick movement. It hands
//! back a snapshot of every pad's current buttons and axes, and that is the
//! whole input surface. So this backend keeps the previous snapshot, and when
//! the caller asks for an event and the queue is empty it takes a new one and
//! emits the differences.

use crate::ieee;
use crate::ieee::{Double, Single};
use crate::motion;
use crate::{Axis, Button, Event, EventKind, Id};
use std::collections::{HashMap, VecDeque};
use vstd::prelude::*;

verus! {

broadcast use vstd::std_specs::hash::group_hash_axioms;

/// What a snapshot says of one button.
#[derive(Clone, Copy, Debug)]
pub struct ButtonReading {
    pub pressed: bool,
    pub value: Double,
}

/// What a snapshot says of one pad.
#[derive(Clone, Debug)]
pub struct PadReading {
    /// The browser's index of the pad.
    pub index: u32,
    pub connected: bool,
    /// Whether the browser maps the pad to the standard layout.
    pub standard: bool,
    /// The buttons by browser index; none where the entry is not a button.
    pub buttons: Vec<Option<ButtonReading>>,
    /// The axes by browser index; none where the entry is not a number.
    pub axes: Vec<Option<Double>>,
}

/// Last-seen state of one pad, as the snapshots reported it.
pub struct PadState {
    /// Pressed-ness per browser button index.
    buttons: Vec<bool>,
    /// Value per browser axis index.
    axes: Vec<Single>,
    /// Value per trigger button index, kept apart from `buttons` because
    /// triggers are analog here.
    triggers: Vec<Single>,
}

/// The model of a [`PadState`].
#[verifier::ext_equal]
pub struct PadModel {
    pub buttons: Seq<bool>,
    pub axes: Seq<Single>,
    pub triggers: Seq<Single>,
}

impl View for PadState {
    type V = PadModel;

    closed spec fn view(&self) -> PadModel {
        PadModel { buttons: self.buttons@, axes: self.axes@, triggers: self.triggers@ }
    }
}

impl PadModel {
    /// The state of a pad that has not been seen yet.
    pub open spec fn fresh() -> PadModel {
        PadModel { buttons: Seq::empty(), axes: Seq::empty(), triggers: Seq::empty() }
    }

    /// Every stick value lies in [-1, 1], and every trigger value in [0, 1].
    pub open spec fn wf(self) -> bool {
        &&& forall|i: int| 0 <= i < self.axes.len() ==> (#[trigger] self.axes[i]).within_one()
        &&& forall|i: int|
            0 <= i < self.triggers.len() ==> (#[trigger] self.triggers[i]).within_unit()
    }
}

/// The buttons of the browser's standard mapping, by index. Indices 6 and 7
/// are absent: those are the triggers, which are axes here.
pub open spec fn button_of(i: int) -> Option<Button> {
    if i == 0 {
        Some(Button::South)
    } else if i == 1 {
        Some(Button::East)
    } else if i == 2 {
        Some(Button::West)
    } else if i == 3 {
        Some(Button::North)
    } else if i == 4 {
        Some(Button::LeftShoulder)
    } else if i == 5 {
        Some(Button::RightShoulder)
    } else if i == 8 {
        Some(Button::Back)
    } else if i == 9 {
        Some(Button::Start)
    } else if i == 10 {
        Some(Button::LeftStick)
    } else if i == 11 {
        Some(Button::RightStick)
    } else if i == 12 {
        Some(Button::DPadUp)
    } else if i == 13 {
        Some(Button::DPadDown)
    } else if i == 14 {
        Some(Button::DPadLeft)
    } else if i == 15 {
        Some(Button::DPadRight)
    } else if i == 16 {
        Some(Button::Guide)
    } else {
        None
    }
}

/// Browser button index of each trigger, and the axis it becomes.
pub open spec fn trigger_axis_of(i: int) -> Option<Axis> {
    if i == 6 {
        Some(Axis::TriggerLeft)
    } else if i == 7 {
        Some(Axis::TriggerRight)
    } else {
        None
    }
}

/// The standard mapping's four stick axes, by index.
pub open spec fn stick_axis_of(i: int) -> Option<Axis> {
    if i == 0 {
        Some(Axis::LeftX)
    } else if i == 1 {
        Some(Axis::LeftY)
    } else if i == 2 {
        Some(Axis::RightX)
    } else if i == 3 {
        Some(Axis::RightY)
    } else {
        None
    }
}

/// How many button indices the standard mapping has.
pub const BUTTON_SLOTS: usize = 17;

/// How many axis indices the standard mapping has.
pub const AXIS_SLOTS: usize = 4;

/// A sequence cut or filled up to a length.
pub open spec fn resized<A>(s: Seq<A>, n: nat, fill: A) -> Seq<A> {
    Seq::new(
        n,
        |i: int|
            if i < s.len() {
                s[i]
            } else {
                fill
            },
    )
}

/// What a snapshot says of the button at an index: nothing past the end.
pub open spec fn reading_at(buttons: Seq<Option<ButtonReading>>, i: int) -> Option<ButtonReading> {
    if 0 <= i < buttons.len() {
        buttons[i]
    } else {
        None
    }
}

/// Whether the button at an index is held down.
pub open spec fn pressed_at(buttons: Seq<Option<ButtonReading>>, i: int) -> Option<bool> {
    match reading_at(buttons, i) {
        Some(r) => Some(r.pressed),
        None => None,
    }
}

/// The value of the trigger at a button index.
pub open spec fn trigger_at(buttons: Seq<Option<ButtonReading>>, i: int) -> Option<Single> {
    match reading_at(buttons, i) {
        Some(r) => Some(ieee::trigger_of(r.value)),
        None => None,
    }
}

/// The value of the stick axis at an index: zero for an entry that holds none.
pub open spec fn stick_at(axes: Seq<Option<Double>>, i: int) -> Option<Single> {
    if 0 <= i < axes.len() {
        match axes[i] {
            Some(d) => Some(ieee::stick_of(d)),
            None => Some(Single { bits: 0 }),
        }
    } else {
        None
    }
}

/// The standard button at a browser index.
fn standard_button(i: usize) -> (r: Option<Button>)
    ensures
        r == button_of(i as int),
{
    match i {
        0 => Some(Button::South),
        1 => Some(Button::East),
        2 => Some(Button::West),
        3 => Some(Button::North),
        4 => Some(Button::LeftShoulder),
        5 => Some(Button::RightShoulder),
        8 => Some(Button::Back),
        9 => Some(Button::Start),
        10 => Some(Button::LeftStick),
        11 => Some(Button::RightStick),
        12 => Some(Button::DPadUp),
        13 => Some(Button::DPadDown),
        14 => Some(Button::DPadLeft),
        15 => Some(Button::DPadRight),
        16 => Some(Button::Guide),
        _ => None,
    }
}

/// The axis that the trigger at a browser button index becomes.
fn trigger_axis(i: usize) -> (r: Option<Axis>)
    ensures
        r == trigger_axis_of(i as int),
{
    match i {
        6 => Some(Axis::TriggerLeft),
        7 => Some(Axis::TriggerRight),
        _ => None,
    }
}

/// The stick axis at a browser index.
fn stick_axis(i: usize) -> (r: Option<Axis>)
    ensures
        r == stick_axis_of(i as int),
{
    match i {
        0 => Some(Axis::LeftX),
        1 => Some(Axis::LeftY),
        2 => Some(Axis::RightX),
        3 => Some(Axis::RightY),
        _ => None,
    }
}

/// What a snapshot says of the button at an index.
pub fn button_at(buttons: &Vec<Option<ButtonReading>>, idx: usize) -> (r: Option<ButtonReading>)
    ensures
        r == reading_at(buttons@, idx as int),
{
    if idx < buttons.len() {
        buttons[idx]
    } else {
        None
    }
}

/// Whether the button at an index is held down.
pub fn button_pressed(buttons: &Vec<Option<ButtonReading>>, idx: usize) -> (r: Option<bool>)
    ensures
        r == pressed_at(buttons@, idx as int),
{
    match button_at(buttons, idx) {
        Some(reading) => Some(reading.pressed),
        None => None,
    }
}

/// The value of the trigger at a button index, clamped to [0, 1]. A reading that
/// is not a number stays so.
pub fn button_value(buttons: &Vec<Option<ButtonReading>>, idx: usize) -> (r: Option<Single>)
    ensures
        r == trigger_at(buttons@, idx as int),
        r matches Some(v) ==> v.within_unit() || v.is_nan(),
{
    match button_at(buttons, idx) {
        Some(reading) => Some(ieee::trigger_value(reading.value)),
        None => None,
    }
}

/// The value of the stick axis at an index, clamped to [-1, 1]. A reading that is
/// not a number stays so.
pub fn axis_value(axes: &Vec<Option<Double>>, idx: usize) -> (r: Option<Single>)
    ensures
        r == stick_at(axes@, idx as int),
        r matches Some(v) ==> v.within_one() || v.is_nan(),
{
    if idx < axes.len() {
        match axes[idx] {
            Some(d) => Some(ieee::stick_value(d)),
            None => {
                proof {
                    ieee::lemma_single(false, 0);
                }
                Some(Single { bits: 0 })
            },
        }
    } else {
        None
    }
}

/// The edge of the button at an index, if there is one: it was `was[i]` and
/// the snapshot says otherwise.
pub open spec fn edge(
    id: Id,
    was: Seq<bool>,
    buttons: Seq<Option<ButtonReading>>,
    i: int,
) -> Seq<Event> {
    match (button_of(i), pressed_at(buttons, i)) {
        (Some(button), Some(pressed)) => if pressed != was[i] {
            seq![
                Event {
                    id,
                    kind: if pressed {
                        EventKind::ButtonDown(button)
                    } else {
                        EventKind::ButtonUp(button)
                    },
                },
            ]
        } else {
            Seq::empty()
        },
        _ => Seq::empty(),
    }
}

/// The edges of the buttons at the first `n` indices, in their order.
pub open spec fn edges(
    id: Id,
    was: Seq<bool>,
    buttons: Seq<Option<ButtonReading>>,
    n: nat,
) -> Seq<Event>
    decreases n,
{
    if n == 0 {
        Seq::empty()
    } else {
        edges(id, was, buttons, (n - 1) as nat) + edge(id, was, buttons, n - 1)
    }
}

/// Pressed-ness after a snapshot: what it says of the standard buttons, and
/// what was known of all else.
pub open spec fn pressed_after(was: Seq<bool>, buttons: Seq<Option<ButtonReading>>) -> Seq<bool> {
    Seq::new(
        was.len(),
        |i: int|
            match (button_of(i), pressed_at(buttons, i)) {
                (Some(_), Some(pressed)) => pressed,
                _ => was[i],
            },
    )
}

/// The motion of an axis, if there is one: the snapshot has it at `now`, far
/// enough from where it was last reported.
pub open spec fn motion_of(id: Id, axis: Option<Axis>, was: Single, now: Option<Single>) -> Seq<
    Event,
> {
    match (axis, now) {
        (Some(axis), Some(value)) => if motion::moved(value, was) {
            seq![Event { id, kind: EventKind::AxisMotion { axis, value } }]
        } else {
            Seq::empty()
        },
        _ => Seq::empty(),
    }
}

/// Where an axis was last reported, after a snapshot that has it at `now`.
pub open spec fn settled(axis: Option<Axis>, was: Single, now: Option<Single>) -> Single {
    match (axis, now) {
        (Some(_), Some(value)) => if motion::moved(value, was) {
            value
        } else {
            was
        },
        _ => was,
    }
}

/// The motions of the triggers among the first `n` button indices, in their order.
pub open spec fn trigger_motions(
    id: Id,
    was: Seq<Single>,
    buttons: Seq<Option<ButtonReading>>,
    n: nat,
) -> Seq<Event>
    decreases n,
{
    if n == 0 {
        Seq::empty()
    } else {
        trigger_motions(id, was, buttons, (n - 1) as nat) + motion_of(
            id,
            trigger_axis_of(n - 1),
            was[n - 1],
            trigger_at(buttons, n - 1),
        )
    }
}

/// The values that the triggers were last reported at, after a snapshot.
pub open spec fn triggers_after(
    was: Seq<Single>,
    buttons: Seq<Option<ButtonReading>>,
) -> Seq<Single> {
    Seq::new(was.len(), |i: int| settled(trigger_axis_of(i), was[i], trigger_at(buttons, i)))
}

/// The motions of the sticks among the first `n` axis indices, in their order.
pub open spec fn stick_motions(
    id: Id,
    was: Seq<Single>,
    axes: Seq<Option<Double>>,
    n: nat,
) -> Seq<Event>
    decreases n,
{
    if n == 0 {
        Seq::empty()
    } else {
        stick_motions(id, was, axes, (n - 1) as nat) + motion_of(
            id,
            stick_axis_of(n - 1),
            was[n - 1],
            stick_at(axes, n - 1),
        )
    }
}

/// The values that the sticks were last reported at, after a snapshot.
pub open spec fn sticks_after(was: Seq<Single>, axes: Seq<Option<Double>>) -> Seq<Single> {
    Seq::new(was.len(), |i: int| settled(stick_axis_of(i), was[i], stick_at(axes, i)))
}

impl PadModel {
    /// The state with as many buttons and axes as a snapshot has of them:
    /// released and at rest where there were none.
    pub open spec fn fitted(self, pad: PadReading) -> PadModel {
        PadModel {
            buttons: resized(self.buttons, pad.buttons@.len(), false),
            axes: resized(self.axes, pad.axes@.len(), Single { bits: 0 }),
            triggers: resized(self.triggers, pad.buttons@.len(), Single { bits: 0 }),
        }
    }

    /// The state after a snapshot of the pad.
    pub open spec fn after(self, pad: PadReading) -> PadModel {
        let was = self.fitted(pad);
        PadModel {
            buttons: pressed_after(was.buttons, pad.buttons@),
            axes: sticks_after(was.axes, pad.axes@),
            triggers: triggers_after(was.triggers, pad.buttons@),
        }
    }

    /// What a snapshot of the pad changes: button edges, then the motions of
    /// the triggers, then those of the sticks.
    pub open spec fn changes(self, id: Id, pad: PadReading) -> Seq<Event> {
        let was = self.fitted(pad);
        edges(id, was.buttons, pad.buttons@, BUTTON_SLOTS as nat) + trigger_motions(
            id,
            was.triggers,
            pad.buttons@,
            BUTTON_SLOTS as nat,
        ) + stick_motions(id, was.axes, pad.axes@, AXIS_SLOTS as nat)
    }
}

/// Takes over what a snapshot says of the buttons, and reports the edges.
fn diff_buttons(
    id: Id,
    state: &mut Vec<bool>,
    buttons: &Vec<Option<ButtonReading>>,
    events: &mut Vec<Event>,
)
    requires
        old(state).len() == buttons.len(),
    ensures
        final(state)@ == pressed_after(old(state)@, buttons@),
        final(events)@ == old(events)@ + edges(id, old(state)@, buttons@, BUTTON_SLOTS as nat),
{
    let ghost was = state@;
    let ghost before = events@;
    let mut i: usize = 0;
    while i < BUTTON_SLOTS
        invariant
            i <= BUTTON_SLOTS,
            was.len() == buttons.len(),
            state@.len() == was.len(),
            forall|j: int|
                0 <= j < was.len() ==> #[trigger] state@[j] == if j < i {
                    pressed_after(was, buttons@)[j]
                } else {
                    was[j]
                },
            events@ == before + edges(id, was, buttons@, i as nat),
        decreases BUTTON_SLOTS - i,
    {
        match (standard_button(i), button_pressed(buttons, i)) {
            (Some(button), Some(pressed)) => {
                if pressed != state[i] {
                    state[i] = pressed;
                    events.push(
                        Event {
                            id,
                            kind: if pressed {
                                EventKind::ButtonDown(button)
                            } else {
                                EventKind::ButtonUp(button)
                            },
                        },
                    );
                }
            },
            _ => {},
        }
        i = i + 1;
    }
    assert(state@ =~= pressed_after(was, buttons@));
}

/// Takes over the value of one axis if it has moved, and reports the motion.
fn settle(
    id: Id,
    axis: Option<Axis>,
    state: &mut Vec<Single>,
    i: usize,
    now: Option<Single>,
    events: &mut Vec<Event>,
)
    requires
        now matches Some(v) ==> i < old(state).len() && old(state)@[i as int].within_one() && (
        v.within_one() || v.is_nan()),
    ensures
        final(events)@ == old(events)@ + motion_of(id, axis, old(state)@[i as int], now),
        i < old(state).len() ==> final(state)@ == old(state)@.update(
            i as int,
            settled(axis, old(state)@[i as int], now),
        ),
        i >= old(state).len() ==> final(state)@ == old(state)@,
{
    match (axis, now) {
        (Some(axis), Some(value)) => {
            if motion::has_moved(value, state[i]) {
                state[i] = value;
                events.push(Event { id, kind: EventKind::AxisMotion { axis, value } });
            }
        },
        _ => {},
    }
}

/// Takes over what a snapshot says of the triggers, and reports the motions.
fn diff_triggers(
    id: Id,
    state: &mut Vec<Single>,
    buttons: &Vec<Option<ButtonReading>>,
    events: &mut Vec<Event>,
)
    requires
        old(state).len() == buttons.len(),
        forall|j: int| 0 <= j < old(state).len() ==> (#[trigger] old(state)@[j]).within_unit(),
    ensures
        final(state)@ == triggers_after(old(state)@, buttons@),
        final(events)@ == old(events)@ + trigger_motions(
            id,
            old(state)@,
            buttons@,
            BUTTON_SLOTS as nat,
        ),
        forall|j: int| 0 <= j < final(state).len() ==> (#[trigger] final(state)@[j]).within_unit(),
{
    let ghost was = state@;
    let ghost before = events@;
    let mut i: usize = 0;
    while i < BUTTON_SLOTS
        invariant
            i <= BUTTON_SLOTS,
            was.len() == buttons.len(),
            state@.len() == was.len(),
            forall|j: int| 0 <= j < state@.len() ==> (#[trigger] state@[j]).within_unit(),
            forall|j: int|
                0 <= j < was.len() ==> #[trigger] state@[j] == if j < i {
                    triggers_after(was, buttons@)[j]
                } else {
                    was[j]
                },
            events@ == before + trigger_motions(id, was, buttons@, i as nat),
        decreases BUTTON_SLOTS - i,
    {
        settle(id, trigger_axis(i), state, i, button_value(buttons, i), events);
        assert(events@ == before + trigger_motions(id, was, buttons@, (i + 1) as nat));
        i = i + 1;
    }
    assert(state@ =~= triggers_after(was, buttons@));
}

/// Takes over what a snapshot says of the sticks, and reports the motions.
fn diff_sticks(
    id: Id,
    state: &mut Vec<Single>,
    axes: &Vec<Option<Double>>,
    events: &mut Vec<Event>,
)
    requires
        old(state).len() == axes.len(),
        forall|j: int| 0 <= j < old(state).len() ==> (#[trigger] old(state)@[j]).within_one(),
    ensures
        final(state)@ == sticks_after(old(state)@, axes@),
        final(events)@ == old(events)@ + stick_motions(id, old(state)@, axes@, AXIS_SLOTS as nat),
        forall|j: int| 0 <= j < final(state).len() ==> (#[trigger] final(state)@[j]).within_one(),
{
    let ghost was = state@;
    let ghost before = events@;
    let mut i: usize = 0;
    while i < AXIS_SLOTS
        invariant
            i <= AXIS_SLOTS,
            was.len() == axes.len(),
            state@.len() == was.len(),
            forall|j: int| 0 <= j < state@.len() ==> (#[trigger] state@[j]).within_one(),
            forall|j: int|
                0 <= j < was.len() ==> #[trigger] state@[j] == if j < i {
                    sticks_after(was, axes@)[j]
                } else {
                    was[j]
                },
            events@ == before + stick_motions(id, was, axes@, i as nat),
        decreases AXIS_SLOTS - i,
    {
        settle(id, stick_axis(i), state, i, axis_value(axes, i), events);
        assert(events@ == before + stick_motions(id, was, axes@, (i + 1) as nat));
        i = i + 1;
    }
    assert(state@ =~= sticks_after(was, axes@));
}

/// The state of the browser backend.
pub struct Backend {
    /// `false` until `init` found a navigator, so that `next_event` stays a no-op.
    live: bool,
    pads: HashMap<u32, PadState>,
    /// Events synthesized by the last poll and not yet handed out.
    queue: VecDeque<Event>,
    /// Whether a non-standard mapping has already been complained about, so a
    /// pad the browser can't map isn't complained about on every poll.
    warned_nonstandard: bool,
}

/// The model of a [`Backend`].
#[verifier::ext_equal]
pub struct Model {
    pub live: bool,
    pub pads: Map<u32, PadModel>,
    pub queue: Seq<Event>,
    pub warned: bool,
}

impl View for Backend {
    type V = Model;

    closed spec fn view(&self) -> Model {
        Model {
            live: self.live,
            pads: self.pads@.map_values(|p: PadState| p@),
            queue: self.queue@,
            warned: self.warned_nonstandard,
        }
    }
}

impl Model {
    /// Every value that is kept of a pad is in range.
    pub open spec fn wf(self) -> bool {
        forall|k: u32| #[trigger] self.pads.contains_key(k) ==> self.pads[k].wf()
    }

    /// What is known of a pad.
    pub open spec fn pad(self, index: u32) -> PadModel {
        if self.pads.contains_key(index) {
            self.pads[index]
        } else {
            PadModel::fresh()
        }
    }

    /// The state after the changes of one pad are taken over and queued.
    pub open spec fn diffed(self, index: u32, pad: PadReading) -> Model {
        Model {
            pads: self.pads.insert(index, self.pad(index).after(pad)),
            queue: self.queue + self.pad(index).changes(Id(index), pad),
            ..self
        }
    }
}

impl Default for Backend {
    fn default() -> (r: Self)
        ensures
            r@ == (Model {
                live: false,
                pads: Map::empty(),
                queue: Seq::empty(),
                warned: false,
            }),
    {
        let r = Backend {
            live: false,
            pads: HashMap::new(),
            queue: VecDeque::new(),
            warned_nonstandard: false,
        };
        assert(r@.pads =~= Map::empty());
        r
    }
}

impl PadState {
    /// The state of a pad that has not been seen yet.
    fn new() -> (r: PadState)
        ensures
            r@ == PadModel::fresh(),
    {
        PadState { buttons: Vec::new(), axes: Vec::new(), triggers: Vec::new() }
    }

    /// Makes room for as many buttons and axes as a snapshot has.
    fn fit(&mut self, pad: &PadReading)
        requires
            old(self)@.wf(),
        ensures
            final(self)@ == old(self)@.fitted(*pad),
            final(self)@.wf(),
    {
        let button_count: usize = pad.buttons.len();
        let axis_count: usize = pad.axes.len();
        self.buttons.resize(button_count, false);
        self.triggers.resize(button_count, Single { bits: 0 });
        self.axes.resize(axis_count, Single { bits: 0 });
        proof {
            ieee::lemma_single(false, 0);
            assert(self@ =~= old(self)@.fitted(*pad));
        }
    }
}

/// Queues an event for every button and axis that changed since the last
/// snapshot of this pad.
pub fn diff_pad(b: &mut Backend, index: u32, pad: &PadReading)
    requires
        old(b)@.wf(),
    ensures
        final(b)@ == old(b)@.diffed(index, *pad),
        final(b)@.wf(),
{
    let id = Id(index);
    let mut events: Vec<Event> = Vec::new();
    let mut state = match b.pads.remove(&index) {
        Some(state) => state,
        None => PadState::new(),
    };
    proof {
        assert(old(b)@.pads.contains_key(index) == old(b).pads@.contains_key(index));
        assert(state@ == old(b)@.pad(index));
    }
    state.fit(pad);
    proof {
        let fitted = state@;
        assert(fitted.wf());
        assert forall|j: int| 0 <= j < state.triggers.len() implies (
        #[trigger] state.triggers@[j]).within_unit() by {
            assert(fitted.triggers[j].within_unit());
        }
        assert forall|j: int| 0 <= j < state.axes.len() implies (
        #[trigger] state.axes@[j]).within_one() by {
            assert(fitted.axes[j].within_one());
        }
    }
    diff_buttons(id, &mut state.buttons, &pad.buttons, &mut events);
    diff_triggers(id, &mut state.triggers, &pad.buttons, &mut events);
    diff_sticks(id, &mut state.axes, &pad.axes, &mut events);
    b.pads.insert(index, state);
    let ghost queued = b.queue@;
    let mut i: usize = 0;
    while i < events.len()
        invariant
            i <= events.len(),
            b.queue@ == queued + events@.take(i as int),
            b.live == old(b).live,
            b.warned_nonstandard == old(b).warned_nonstandard,
            b.pads@ == old(b).pads@.insert(index, state),
        decreases events.len() - i,
    {
        b.queue.push_back(events[i]);
        i = i + 1;
    }
    proof {
        assert(events@.take(events.len() as int) =~= events@);
        assert(b@ =~= old(b)@.diffed(index, *pad));
    }
}

/// The pad of a snapshot entry that counts: the list is sparse, and a
/// disconnected slot is a hole or says so.
pub open spec fn present(entry: Option<PadReading>) -> Option<PadReading> {
    match entry {
        Some(pad) => if pad.connected {
            Some(pad)
        } else {
            None
        },
        None => None,
    }
}

/// Whether a snapshot has a pad of this index.
pub open spec fn shows(list: Seq<Option<PadReading>>, index: u32) -> bool {
    exists|i: int|
        0 <= i < list.len() && (#[trigger] present(list[i]) matches Some(pad) && pad.index == index)
}

/// The index of the first pad of a snapshot without a standard mapping.
pub open spec fn first_unmapped(list: Seq<Option<PadReading>>) -> Option<u32>
    decreases list.len(),
{
    if list.len() == 0 {
        None
    } else if first_unmapped(list.drop_last()) is Some {
        first_unmapped(list.drop_last())
    } else {
        match present(list.last()) {
            Some(pad) => if pad.standard {
                None
            } else {
                Some(pad.index)
            },
            None => None,
        }
    }
}

/// Whether a sequence lists the pads that are known of but that a snapshot
/// does not show, each once and in any order.
pub open spec fn lists_gone(
    gone: Seq<u32>,
    pads: Map<u32, PadModel>,
    list: Seq<Option<PadReading>>,
) -> bool {
    &&& gone.no_duplicates()
    &&& forall|k: u32| #[trigger]
        gone.contains(k) <==> pads.contains_key(k) && !shows(list, k)
}

impl Model {
    /// The state after a pad is announced, unless it is known already.
    pub open spec fn greeted(self, index: u32) -> Model {
        if self.pads.contains_key(index) {
            self
        } else {
            Model {
                pads: self.pads.insert(index, PadModel::fresh()),
                queue: self.queue.push(Event { id: Id(index), kind: EventKind::Connected }),
                ..self
            }
        }
    }

    /// The state after one entry of a snapshot.
    pub open spec fn observed(self, entry: Option<PadReading>) -> Model {
        match present(entry) {
            Some(pad) => Model {
                warned: self.warned || !pad.standard,
                ..self.greeted(pad.index).diffed(pad.index, pad)
            },
            None => self,
        }
    }

    /// The state after every entry of a snapshot, in their order.
    pub open spec fn observed_all(self, list: Seq<Option<PadReading>>) -> Model
        decreases list.len(),
    {
        if list.len() == 0 {
            self
        } else {
            self.observed_all(list.drop_last()).observed(list.last())
        }
    }

    /// The state after some pads are forgotten and their going is announced.
    pub open spec fn forgotten(self, gone: Seq<u32>) -> Model {
        Model {
            pads: self.pads.remove_keys(gone.to_set()),
            queue: self.queue + gone.map_values(
                |k: u32| Event { id: Id(k), kind: EventKind::Disconnected },
            ),
            ..self
        }
    }

    /// Whether `after` is a state that a poll with this snapshot may lead to.
    /// Only the order in which vanished pads are announced is left open.
    pub open spec fn polls_to(self, list: Seq<Option<PadReading>>, after: Model) -> bool {
        exists|gone: Seq<u32>|
            {
                &&& lists_gone(gone, self.observed_all(list).pads, list)
                &&& after == #[trigger] self.observed_all(list).forgotten(gone)
            }
    }
}

/// Takes over one entry of a snapshot.
fn observe(b: &mut Backend, pad: &PadReading)
    requires
        old(b)@.wf(),
        pad.connected,
    ensures
        final(b)@ == old(b)@.observed(Some(*pad)),
        final(b)@.wf(),
{
    let index: u32 = pad.index;
    if !pad.standard {
        b.warned_nonstandard = true;
    }
    let fresh: bool = !b.pads.contains_key(&index);
    if fresh {
        b.pads.insert(index, PadState::new());
        b.queue.push_back(Event { id: Id(index), kind: EventKind::Connected });
    }
    proof {
        let greeted = Model {
            warned: old(b)@.warned || !pad.standard,
            ..old(b)@.greeted(index)
        };
        assert(old(b)@.pads.contains_key(index) == old(b).pads@.contains_key(index));
        assert(b@.pads =~= greeted.pads);
        assert(b@ =~= greeted);
        assert(b@.wf()) by {
            assert(PadModel::fresh().wf());
            assert forall|k: u32| #[trigger] b@.pads.contains_key(k) implies b@.pads[k].wf() by {
                if k != index || !fresh {
                    assert(old(b)@.pads.contains_key(k));
                }
            }
        }
    }
    diff_pad(b, index, pad);
    assert(b@ =~= old(b)@.observed(Some(*pad)));
}

/// What pushing an item on a sequence adds to what it contains.
pub proof fn lemma_push_contains(s: Seq<u32>, x: u32)
    ensures
        forall|k: u32| #[trigger] s.push(x).contains(k) <==> s.contains(k) || k == x,
        s.no_duplicates() && !s.contains(x) ==> s.push(x).no_duplicates(),
{
    assert forall|k: u32| s.contains(k) || k == x implies #[trigger] s.push(x).contains(k) by {
        if s.contains(k) {
            let i = choose|i: int| 0 <= i < s.len() && s[i] == k;
            assert(s.push(x)[i] == k);
        } else {
            assert(s.push(x)[s.len() as int] == k);
        }
    }
}

/// Whether an index is among those seen.
fn among(seen: &Vec<u32>, k: u32) -> (r: bool)
    ensures
        r == seen@.contains(k),
{
    let mut j: usize = 0;
    while j < seen.len()
        invariant
            j <= seen.len(),
            forall|i: int| 0 <= i < j ==> seen@[i] != k,
        decreases seen.len() - j,
    {
        if seen[j] == k {
            return true;
        }
        j = j + 1;
    }
    false
}

/// The pads that are known of but not among those seen, in whatever order the
/// map is walked.
fn missing(pads: &HashMap<u32, PadState>, seen: &Vec<u32>) -> (gone: Vec<u32>)
    ensures
        gone@.no_duplicates(),
        forall|k: u32| #[trigger]
            gone@.contains(k) <==> pads@.contains_key(k) && !seen@.contains(k),
{
    let mut gone: Vec<u32> = Vec::new();
    let ghost mut walked: Seq<u32> = Seq::empty();
    let ghost order = vstd::std_specs::iter::IteratorSpec::remaining(
        &vstd::std_specs::hash::spec_keys_iter(pads),
    ).unref();
    for k in it: pads.keys()
        invariant
            it.seq().unref() == order,
            it.seq().no_duplicates(),
            walked.len() == it.index(),
            walked == order.take(it.index() as int),
            gone@.no_duplicates(),
            forall|x: u32| #[trigger]
                gone@.contains(x) <==> walked.contains(x) && !seen@.contains(x),
    {
        proof {
            assert(order[it.index() as int] == *k);
            assert(!walked.contains(*k) && !gone@.contains(*k)) by {
                if walked.contains(*k) {
                    let i = choose|i: int| 0 <= i < walked.len() && walked[i] == *k;
                    assert(it.seq()[i] == it.seq()[it.index() as int]);
                }
            }
            lemma_push_contains(walked, *k);
            lemma_push_contains(gone@, *k);
            walked = walked.push(*k);
            assert(walked =~= order.take(it.index() as int + 1));
        }
        if !among(seen, *k) {
            gone.push(*k);
        }
    }
    proof {
        assert(walked =~= order);
        assert forall|k: u32| #[trigger] walked.contains(k) == pads@.contains_key(k) by {
            assert(order.to_set().contains(k) == pads@.dom().contains(k));
        }
    }
    gone
}

/// Drops what is known of some pads, and announces that they are gone.
pub fn forget(b: &mut Backend, gone: &Vec<u32>)
    requires
        old(b)@.wf(),
    ensures
        final(b)@ == old(b)@.forgotten(gone@),
        final(b)@.wf(),
{
    let ghost before = b@;
    assert(b@ =~= before.forgotten(gone@.take(0)));
    let mut i: usize = 0;
    while i < gone.len()
        invariant
            i <= gone.len(),
            b@ == before.forgotten(gone@.take(i as int)),
        decreases gone.len() - i,
    {
        let index: u32 = gone[i];
        let ghost pads = b.pads@;
        b.pads.remove(&index);
        b.queue.push_back(Event { id: Id(index), kind: EventKind::Disconnected });
        proof {
            let (done, next) = (gone@.take(i as int), gone@.take(i + 1));
            assert(next =~= done.push(index));
            lemma_push_contains(done, index);
            assert forall|k: u32| #[trigger] next.to_set().contains(k) == (done.to_set().contains(k)
                || k == index) by {}
            assert(b.pads@ =~= pads.remove(index));
            let (was, now) = (before.forgotten(done).pads, before.forgotten(next).pads);
            assert(b@.pads =~= was.remove(index));
            assert(was.remove(index) =~= now);
            assert(b@.queue =~= before.forgotten(next).queue);
        }
        i = i + 1;
    }
    assert(gone@.take(gone.len() as int) =~= gone@);
    assert forall|k: u32| #[trigger] b@.pads.contains_key(k) implies b@.pads[k].wf() by {
        assert(before.pads.contains_key(k));
    }
}

/// Diffs a snapshot against what is known and fills the queue. Hands back the
/// index of a pad to complain about, the first time that one has no standard
/// mapping.
pub fn poll(b: &mut Backend, list: &Vec<Option<PadReading>>) -> (unmapped: Option<u32>)
    requires
        old(b)@.wf(),
    ensures
        old(b)@.polls_to(list@, final(b)@),
        final(b)@.wf(),
        unmapped == if old(b)@.warned {
            None
        } else {
            first_unmapped(list@)
        },
{
    let ghost before = b@;
    let mut seen: Vec<u32> = Vec::new();
    let mut unmapped: Option<u32> = None;
    let mut i: usize = 0;
    while i < list.len()
        invariant
            i <= list.len(),
            b@.wf(),
            b@ == before.observed_all(list@.take(i as int)),
            b@.warned == (before.warned || first_unmapped(list@.take(i as int)) is Some),
            forall|k: u32| #[trigger] seen@.contains(k) <==> shows(list@.take(i as int), k),
            unmapped == if before.warned {
                None
            } else {
                first_unmapped(list@.take(i as int))
            },
        decreases list.len() - i,
    {
        let ghost (done, next) = (list@.take(i as int), list@.take(i + 1));
        proof {
            assert(next.drop_last() =~= done);
            assert(next =~= done.push(list@[i as int]));
            assert(next.last() == list@[i as int]);
            lemma_shows_next(done, list@[i as int], next);
        }
        match &list[i] {
            Some(pad) => {
                if pad.connected {
                    if !pad.standard && !b.warned_nonstandard {
                        unmapped = Some(pad.index);
                    }
                    observe(b, pad);
                    proof {
                        lemma_push_contains(seen@, pad.index);
                    }
                    seen.push(pad.index);
                }
            },
            None => {},
        }
        i = i + 1;
    }
    assert(list@.take(list.len() as int) =~= list@);
    let gone: Vec<u32> = missing(&b.pads, &seen);
    let ghost observed = b@;
    assert(lists_gone(gone@, observed.pads, list@)) by {
        assert forall|k: u32| #[trigger] gone@.contains(k) <==> observed.pads.contains_key(k)
            && !shows(list@, k) by {
            assert(observed.pads.contains_key(k) == b.pads@.contains_key(k));
            assert(seen@.contains(k) == shows(list@, k));
        }
    }
    forget(b, &gone);
    unmapped
}

/// What one more entry adds to what a snapshot shows.
proof fn lemma_shows_next(
    done: Seq<Option<PadReading>>,
    entry: Option<PadReading>,
    next: Seq<Option<PadReading>>,
)
    requires
        next == done.push(entry),
    ensures
        forall|k: u32| #[trigger]
            shows(next, k) <==> shows(done, k) || (present(entry) matches Some(pad) && pad.index
                == k),
{
    assert forall|k: u32| #[trigger]
        shows(next, k) <==> shows(done, k) || (present(entry) matches Some(pad) && pad.index
            == k) by {
        if shows(done, k) {
            let i = choose|i: int|
                0 <= i < done.len() && (#[trigger] present(done[i]) matches Some(pad) && pad.index
                    == k);
            assert(next[i] == done[i]);
        }
        if present(entry) matches Some(pad) && pad.index == k {
            assert(next[done.len() as int] == entry);
        }
        if shows(next, k) {
            let i = choose|i: int|
                0 <= i < next.len() && (#[trigger] present(next[i]) matches Some(pad) && pad.index
                    == k);
            if i < done.len() {
                assert(next[i] == done[i]);
            }
        }
    }
}

/// Starts the backend, if there is a navigator to ask: a host outside a
/// browsing context has no gamepads.
pub fn init(b: &mut Backend, _app_name: &str, navigator: bool)
    requires
        old(b)@.wf(),
    ensures
        final(b)@ == (Model { live: old(b)@.live || navigator, ..old(b)@ }),
        final(b)@.wf(),
{
    if navigator {
        b.live = true;
    }
}

/// What is brought to [`next_event`].
pub enum Reply {
    /// Nothing yet: an event is asked for.
    Start,
    /// The snapshot that was asked for, or none where it could not be taken.
    Snapshot(Option<Vec<Option<PadReading>>>),
}

/// What [`next_event`] asks for.
#[derive(Clone, Copy, Debug, PartialEq, Eq, Structural)]
pub enum Step {
    /// Take a snapshot, and bring it.
    TakeSnapshot,
    /// Hand out this event, and complain about this pad.
    Return { event: Option<Event>, unmapped: Option<u32> },
}

impl Model {
    /// The state after the first queued event is handed out.
    pub open spec fn popped(self) -> Model {
        Model {
            queue: if self.queue.len() > 0 {
                self.queue.drop_first()
            } else {
                self.queue
            },
            ..self
        }
    }

    /// The first queued event.
    pub open spec fn first(self) -> Option<Event> {
        if self.queue.len() > 0 {
            Some(self.queue[0])
        } else {
            None
        }
    }

    /// Whether `after` and `step` may follow from what is brought.
    pub open spec fn answers(self, reply: Reply, after: Model, step: Step) -> bool {
        if !self.live {
            &&& after == self
            &&& step == (Step::Return { event: None, unmapped: None })
        } else {
            match reply {
                Reply::Start => if self.queue.len() > 0 {
                    &&& after == self.popped()
                    &&& step == (Step::Return { event: self.first(), unmapped: None })
                } else {
                    &&& after == self
                    &&& step == Step::TakeSnapshot
                },
                Reply::Snapshot(Some(list)) => exists|polled: Model|
                    {
                        &&& #[trigger] self.polls_to(list@, polled)
                        &&& after == polled.popped()
                        &&& step == (Step::Return {
                            event: polled.first(),
                            unmapped: if self.warned {
                                None
                            } else {
                                first_unmapped(list@)
                            },
                        })
                    },
                Reply::Snapshot(None) => {
                    &&& after == self.popped()
                    &&& step == (Step::Return { event: self.first(), unmapped: None })
                },
            }
        }
    }
}

/// Takes the first event off the queue.
fn pop(b: &mut Backend) -> (r: Option<Event>)
    requires
        old(b)@.wf(),
    ensures
        final(b)@ == old(b)@.popped(),
        final(b)@.wf(),
        r == old(b)@.first(),
{
    let r = b.queue.pop_front();
    assert(b@ =~= old(b)@.popped());
    r
}

/// Pops the next event, and takes a snapshot first when there is none queued.
pub fn next_event(b: &mut Backend, reply: Reply) -> (step: Step)
    requires
        old(b)@.wf(),
    ensures
        old(b)@.answers(reply, final(b)@, step),
        final(b)@.wf(),
{
    if !b.live {
        return Step::Return { event: None, unmapped: None };
    }
    match reply {
        Reply::Start => {
            if b.queue.len() > 0 {
                Step::Return { event: pop(b), unmapped: None }
            } else {
                Step::TakeSnapshot
            }
        },
        Reply::Snapshot(Some(list)) => {
            let unmapped: Option<u32> = poll(b, &list);
            Step::Return { event: pop(b), unmapped }
        },
        Reply::Snapshot(None) => Step::Return { event: pop(b), unmapped: None },
    }
}

} // verus!
