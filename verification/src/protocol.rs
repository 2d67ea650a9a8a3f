//! The action protocol: the messages the dispatch loop consumes, and the
//! step function that serializes every read, write and shutdown request.

use crate::store::SettingSaver;
use crate::store::newline_free;
use crate::store::newline_free_entries;
use crate::store::lemma_round_trip_entries;
use crate::store::lemma_spec_set;
use crate::store::spec_lines;
use crate::store::spec_lookup;
use crate::store::spec_pairs;
use crate::store::spec_serialize;
use crate::store::spec_set;
use crate::store::spec_store_map;
use vstd::prelude::*;

verus! {

/// One requested operation, as carried over the dispatch channel.
pub enum Action {
    /// Read request; expects exactly one reply.
    GetSettings(String),
    /// Write request; fire-and-forget.
    SetSettings(String, String),
    /// Shutdown request; terminal.
    Exit,
}

/// The mathematical form of an [`Action`].
pub enum ActionV {
    GetSettings(Seq<char>),
    SetSettings(Seq<char>, Seq<char>),
    Exit,
}

impl View for Action {
    type V = ActionV;

    open spec fn view(&self) -> ActionV {
        match self {
            Action::GetSettings(d) => ActionV::GetSettings(d@),
            Action::SetSettings(d, v) => ActionV::SetSettings(d@, v@),
            Action::Exit => ActionV::Exit,
        }
    }
}

/// What the dispatch loop does after one action: reply to the caller,
/// keep looping, or flush and stop.
pub enum Outcome {
    /// The reply owed to a read request.
    Reply(String),
    /// Keep consuming actions.
    Continue,
    /// Persist the store and terminate the loop.
    Stop,
}

/// The reply an outcome carries, if any.
pub open spec fn outcome_reply(r: Outcome) -> Option<Seq<char>> {
    match r {
        Outcome::Reply(s) => Option::Some(s@),
        Outcome::Continue => Option::None,
        Outcome::Stop => Option::None,
    }
}

/// Whether an outcome terminates the dispatch loop.
pub open spec fn outcome_stops(r: Outcome) -> bool {
    match r {
        Outcome::Stop => true,
        _ => false,
    }
}

/// One step of the dispatch loop: the map after the action, the reply it
/// sends (if any), and whether the loop stops.
pub open spec fn spec_step(m: Map<Seq<char>, Seq<char>>, a: ActionV) -> (
    Map<Seq<char>, Seq<char>>,
    Option<Seq<char>>,
    bool,
) {
    match a {
        ActionV::GetSettings(d) => (m, Option::Some(spec_lookup(m, d)), false),
        ActionV::SetSettings(d, v) => (m.insert(d, v), Option::None, false),
        ActionV::Exit => (m, Option::None, true),
    }
}

/// The reply sequence one step contributes.
pub open spec fn spec_replies(rep: Option<Seq<char>>) -> Seq<Seq<char>> {
    match rep {
        Option::Some(r) => seq![r],
        Option::None => Seq::empty(),
    }
}

/// The dispatch loop run over a sequence of actions, in arrival order:
/// the final map, the replies sent, and whether an `Exit` stopped the
/// loop. No action after a stopping one is processed.
pub open spec fn spec_run(m: Map<Seq<char>, Seq<char>>, actions: Seq<ActionV>) -> (
    Map<Seq<char>, Seq<char>>,
    Seq<Seq<char>>,
    bool,
)
    decreases actions.len(),
{
    if actions.len() == 0 {
        (m, Seq::empty(), false)
    } else {
        let step = spec_step(m, actions[0]);
        if step.2 {
            (step.0, spec_replies(step.1), true)
        } else {
            let rest = spec_run(step.0, actions.drop_first());
            (rest.0, spec_replies(step.1) + rest.1, rest.2)
        }
    }
}

impl SettingSaver {
    /// Performs one action on the store, exactly as the dispatch loop
    /// does: a read leaves the store unchanged and yields its reply, a
    /// write updates the map, and `Exit` asks the caller to flush and
    /// stop.
    pub fn handle_action(&mut self, action: Action) -> (r: Outcome)
        requires
            old(self).wf(),
        ensures
            final(self).wf(),
            final(self)@ == spec_step(old(self)@, action@).0,
            outcome_reply(r) == spec_step(old(self)@, action@).1,
            outcome_stops(r) == spec_step(old(self)@, action@).2,
            action matches Action::SetSettings(d, v) ==> final(self).entries_seq() == spec_set(
                old(self).entries_seq(),
                d@,
                v@,
            ),
            !(action matches Action::SetSettings(d, v)) ==> final(self).entries_seq() == old(
                self,
            ).entries_seq(),
    {
        match action {
            Action::GetSettings(desktop) => {
                let reply = self.get_settings(desktop);
                Outcome::Reply(reply)
            },
            Action::SetSettings(desktop, settings) => {
                self.set_settings(desktop, settings);
                Outcome::Continue
            },
            Action::Exit => Outcome::Stop,
        }
    }
}

/// Law: within one dispatch sequence, a set followed by a get of the same
/// key replies with the value just set.
pub proof fn lemma_set_then_get(m: Map<Seq<char>, Seq<char>>, k: Seq<char>, v: Seq<char>)
    ensures
        ({
            let r = spec_run(m, seq![ActionV::SetSettings(k, v), ActionV::GetSettings(k)]);
            &&& r.0 == m.insert(k, v)
            &&& r.1 == seq![v]
            &&& !r.2
        }),
{
    let acts = seq![ActionV::SetSettings(k, v), ActionV::GetSettings(k)];
    let tail = acts.drop_first();
    assert(tail =~= seq![ActionV::GetSettings(k)]);
    assert(tail.drop_first() =~= Seq::<ActionV>::empty());
    let m1 = m.insert(k, v);
    assert(spec_run(m1, tail.drop_first()) == (
        m1,
        Seq::<Seq<char>>::empty(),
        false,
    ));
    assert(spec_lookup(m1, k) == v);
    assert(spec_run(m1, tail).1 =~= seq![v]);
    assert(spec_run(m, acts).1 =~= seq![v]);
    assert(spec_run(m, acts).0 == m1);
    assert(!spec_run(m, acts).2);
}

/// Law: actions are applied in arrival order; of two sets to one key the
/// later wins, and a get queued after both replies with the later value.
pub proof fn lemma_ordered_sets(
    m: Map<Seq<char>, Seq<char>>,
    k: Seq<char>,
    v1: Seq<char>,
    v2: Seq<char>,
)
    ensures
        ({
            let r = spec_run(
                m,
                seq![
                    ActionV::SetSettings(k, v1),
                    ActionV::SetSettings(k, v2),
                    ActionV::GetSettings(k),
                ],
            );
            &&& r.0 == m.insert(k, v2)
            &&& r.1 == seq![v2]
            &&& !r.2
        }),
{
    let acts = seq![
        ActionV::SetSettings(k, v1),
        ActionV::SetSettings(k, v2),
        ActionV::GetSettings(k),
    ];
    let tail = acts.drop_first();
    assert(tail =~= seq![ActionV::SetSettings(k, v2), ActionV::GetSettings(k)]);
    lemma_set_then_get(m.insert(k, v1), k, v2);
    assert(m.insert(k, v1).insert(k, v2) =~= m.insert(k, v2));
    assert(spec_run(m, acts).1 =~= seq![v2]);
    assert(spec_run(m, acts).0 == m.insert(k, v2));
    assert(!spec_run(m, acts).2);
}

/// Law: `Exit` is terminal. Whatever is queued behind it is never
/// processed: the map stays as it was and no further reply is sent.
pub proof fn lemma_exit_terminal(m: Map<Seq<char>, Seq<char>>, rest: Seq<ActionV>)
    ensures
        spec_run(m, seq![ActionV::Exit] + rest).0 == m,
        spec_run(m, seq![ActionV::Exit] + rest).1 == Seq::<Seq<char>>::empty(),
        spec_run(m, seq![ActionV::Exit] + rest).2,
{
    let acts = seq![ActionV::Exit] + rest;
    assert(acts.len() == 1 + rest.len());
    assert(acts[0] == ActionV::Exit);
    assert(spec_step(m, acts[0]).2);
    assert(spec_run(m, acts).1 =~= Seq::<Seq<char>>::empty());
}

/// Law: a set followed by `Exit` stops the loop, and the text saved at
/// that point loads back to a store that maps the key to the value just
/// set, so the write survives a restart.
pub proof fn lemma_shutdown_flush(s: &SettingSaver, k: Seq<char>, v: Seq<char>)
    requires
        s.wf(),
        newline_free_entries(s.entries_seq()),
        newline_free(k),
        newline_free(v),
    ensures
        ({
            let es2 = spec_set(s.entries_seq(), k, v);
            let r = spec_run(s@, seq![ActionV::SetSettings(k, v), ActionV::Exit]);
            &&& r.2
            &&& r.0 == spec_store_map(es2)
            &&& spec_lines(spec_serialize(es2)).len() % 2 == 0
            &&& spec_lookup(
                spec_store_map(spec_pairs(spec_lines(spec_serialize(es2)))),
                k,
            ) == v
        }),
{
    let es2 = spec_set(s.entries_seq(), k, v);
    let acts = seq![ActionV::SetSettings(k, v), ActionV::Exit];
    let tail = acts.drop_first();
    assert(tail =~= seq![ActionV::Exit]);
    lemma_spec_set(s.entries_seq(), k, v);
    lemma_round_trip_entries(es2);
    let m1 = s@.insert(k, v);
    assert(acts[0] == ActionV::SetSettings(k, v));
    assert(tail[0] == ActionV::Exit);
    assert(spec_step(m1, tail[0]).2);
    assert(spec_run(m1, tail).0 == m1);
    assert(spec_run(m1, tail).2);
    assert(spec_run(s@, acts).0 == spec_run(m1, tail).0);
    assert(spec_run(s@, acts).0 == spec_store_map(es2));
    assert(spec_run(s@, acts).2);
    assert(spec_lookup(spec_store_map(es2), k) == v);
}

} // verus!
