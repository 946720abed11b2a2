//! What holds whatever backend is underneath.

use crate::laws::mirror;
use crate::laws::mirror::Held;
use crate::laws::web;
use crate::sdl;
use crate::{Button, InitReply, Model, Reply, Step};
use vstd::prelude::*;

verus! {

/// A backend that was not started hands out no event and stays as it is,
/// whatever it is brought.
pub proof fn law_inert_until_started<G>(m: Model<G>, reply: Reply<G>, after: Model<G>, step: Step)
    requires
        !m.live(),
        m.answers(reply, after, step),
    ensures
        after == m,
        step == (Step::Return { event: None, unmapped: None }),
{
}

/// Starting succeeds in a browser where there is a navigator, natively where
/// SDL, its event pump and its gamepad subsystem all came up, and never
/// without SDL.
pub proof fn law_started<G>(wasm32: bool, sdl3: bool, reply: InitReply<G>)
    ensures
        Model::<G>::selected(wasm32, sdl3).started(reply).live() <==> if wasm32 {
            reply == InitReply::<G>::Navigator(true)
        } else {
            sdl3 && (reply matches InitReply::Sdl(Some(startup)) && startup.pump
                && startup.listing is Ok)
        },
{
}

/// A backend asks only for what is its own: a browser's for snapshots, SDL's
/// for polling and opening, and the one without gamepads for nothing.
pub proof fn law_asks_for_its_own<G>(
    m: Model<G>,
    reply: Reply<G>,
    after: Model<G>,
    step: Step,
)
    requires
        m.answers(reply, after, step),
    ensures
        step is TakeSnapshot ==> m is Web,
        step is Poll || step is Open ==> m is Sdl3,
        m is Stub ==> step == (Step::Return { event: None, unmapped: None }),
{
}

/// A browser's backend starts with no pad known and nothing queued, which is
/// what a caller that was handed no event yet expects of every pad.
pub proof fn law_browser_starts_blank<G>(
    sdl3: bool,
    reply: InitReply<G>,
    index: u32,
    button: Button,
)
    ensures
        Model::<G>::selected(true, sdl3).started(reply) matches Model::Web(m) && {
            &&& web::consistent(Set::empty(), m)
            &&& web::all_plausible(m)
            &&& mirror::mirrors(Held::nothing(), index, m)
            &&& mirror::in_step(false, index, button, m)
        },
{
    mirror::lemma_nothing_held_of_fresh();
    if let Model::Web(m) = Model::<G>::selected(true, sdl3).started(reply) {
        assert(m.pads.dom() =~= Set::empty());
    }
}

/// A wasm target has the browser's backend, another one SDL's where that is
/// linked, and none is started or knows of anything yet.
pub proof fn law_target_decides<G>(wasm32: bool, sdl3: bool)
    ensures
        match Model::<G>::selected(wasm32, sdl3) {
            Model::Web(b) => {
                &&& wasm32
                &&& !b.live
                &&& !b.warned
                &&& b.queue.len() == 0
                &&& forall|k: u32| !b.pads.contains_key(k)
            },
            Model::Sdl3(b) => !wasm32 && sdl3 && !b.pump && b.open is None,
            Model::Stub => !wasm32 && !sdl3,
        },
{
}

/// Starting makes a browser's backend live where there is a navigator and
/// changes nothing else of it, hands SDL's what starting SDL gave, and does
/// nothing with what is meant for another backend.
pub proof fn law_start_is_handed_on<G>(m: Model<G>, reply: InitReply<G>)
    ensures
        match (m, reply) {
            (Model::Web(b), InitReply::Navigator(found)) => m.started(reply) matches Model::Web(a)
                && {
                &&& a.live <==> b.live || found
                &&& a.pads == b.pads
                &&& a.queue == b.queue
                &&& a.warned == b.warned
            },
            (Model::Sdl3(b), InitReply::Sdl(startup)) => m.started(reply) == Model::Sdl3(
                b.started(startup),
            ),
            _ => m.started(reply) == m,
        },
{
}

/// The hints that are given to SDL ask for a polling thread and carry the
/// application's name, and differ for different names.
pub proof fn law_hints_carry_the_name(
    hints: Seq<(String, String)>,
    name: Seq<char>,
    other: Seq<char>,
)
    requires
        crate::names_application(hints, name),
    ensures
        hints.len() == 2,
        hints[0].0@ == "SDL_JOYSTICK_THREAD"@ && hints[0].1@ == "1"@,
        hints[1].0@ == "SDL_APP_NAME"@ && hints[1].1@ == name,
        crate::names_application(hints, other) ==> other == name,
{
}

/// What a browser's backend is brought is handed on to it, and what it answers
/// is handed back as it is, the complaint included.
pub proof fn law_browser_is_handed_on<G>(
    b: crate::web::Model,
    reply: Reply<G>,
    after: Model<G>,
    step: Step,
)
    requires
        Model::<G>::Web(b).answers(reply, after, step),
    ensures
        after is Web,
        match reply {
            Reply::Start => browser_answers(b, crate::web::Reply::Start, after->Web_0, step),
            Reply::Snapshot(list) => browser_answers(
                b,
                crate::web::Reply::Snapshot(list),
                after->Web_0,
                step,
            ),
            _ => after == Model::<G>::Web(b) && step == (Step::Return {
                event: None,
                unmapped: None,
            }),
        },
{
    if let Some(r) = crate::web_reply(reply) {
        let (a, s) = choose|a: crate::web::Model, s: crate::web::Step|
            {
                &&& #[trigger] b.answers(r, a, s)
                &&& after == Model::<G>::Web(a)
                &&& step == crate::web_step(s)
            };
        assert(same_browser_step(s, step));
    }
}

/// Whether a browser's backend may answer so.
pub open spec fn browser_answers(
    b: crate::web::Model,
    reply: crate::web::Reply,
    after: crate::web::Model,
    step: Step,
) -> bool {
    exists|s: crate::web::Step| #[trigger]
        b.answers(reply, after, s) && same_browser_step(s, step)
}

/// Whether a step is one of a browser's backend.
pub open spec fn same_browser_step(s: crate::web::Step, step: Step) -> bool {
    match (s, step) {
        (crate::web::Step::TakeSnapshot, Step::TakeSnapshot) => true,
        (
            crate::web::Step::Return { event, unmapped },
            Step::Return { event: e, unmapped: u },
        ) => event == e && unmapped == u,
        _ => false,
    }
}

/// Whether a step is one of SDL's backend.
pub open spec fn same_sdl_step(s: sdl::Step, step: Step) -> bool {
    match (s, step) {
        (sdl::Step::Poll, Step::Poll) => true,
        (sdl::Step::Open(which), Step::Open(w)) => which == w,
        (sdl::Step::Return(event), Step::Return { event: e, unmapped }) => event == e
            && unmapped is None,
        _ => false,
    }
}

/// What SDL's backend is brought is handed on to it, and what it answers is
/// handed back as it is.
pub proof fn law_sdl_is_handed_on<G>(
    b: sdl::Model<G>,
    reply: Reply<G>,
    after: Model<G>,
    step: Step,
)
    requires
        Model::Sdl3(b).answers(reply, after, step),
    ensures
        after matches Model::Sdl3(a) && match reply {
            Reply::Start => a == b.after(sdl::Reply::Start) && same_sdl_step(
                b.step(sdl::Reply::Start),
                step,
            ),
            Reply::Polled(event) => a == b.after(sdl::Reply::Polled(event)) && same_sdl_step(
                b.step(sdl::Reply::Polled(event)),
                step,
            ),
            Reply::Opened { which, pad } => a == b.after(sdl::Reply::Opened { which, pad })
                && same_sdl_step(b.step(sdl::Reply::Opened { which, pad }), step),
            Reply::Snapshot(_) => a == b && step == (Step::Return { event: None, unmapped: None }),
        },
{
}

} // verus!
