//! What a replay tells, said of the requests, the files and the steps of their traces.

use crate::decimal;
use crate::json::JsonModel;
use crate::replay;
use crate::replay::{ReplayRequest, ReplaySummary, TraceModel};
use crate::text;
use vstd::prelude::*;

verus! {

proof fn absent_is_first(traces: Seq<(String, bool)>)
    ensures
        match replay::first_absent(traces) {
            None => forall|i: int| 0 <= i < traces.len() ==> (#[trigger] traces[i]).1,
            Some(t) => exists|i: int|
                0 <= i < traces.len() && !(#[trigger] traces[i]).1 && traces[i].0@ == t && forall|
                    j: int,
                | 0 <= j < i ==> (#[trigger] traces[j]).1,
        },
    decreases traces.len(),
{
    if traces.len() > 0 {
        let rest = traces.drop_first();
        absent_is_first(rest);
        if traces[0].1 {
            match replay::first_absent(rest) {
                None => {
                    assert forall|i: int| 0 <= i < traces.len() implies (
                    #[trigger] traces[i]).1 by {
                        if i > 0 {
                            assert(rest[i - 1] == traces[i]);
                        }
                    }
                },
                Some(t) => {
                    let i = choose|i: int|
                        0 <= i < rest.len() && !(#[trigger] rest[i]).1 && rest[i].0@ == t
                            && forall|j: int| 0 <= j < i ==> (#[trigger] rest[j]).1;
                    assert(traces[i + 1] == rest[i]);
                    assert forall|j: int| 0 <= j < i + 1 implies (#[trigger] traces[j]).1 by {
                        if j > 0 {
                            assert(rest[j - 1] == traces[j]);
                        }
                    }
                },
            }
        }
    }
}

/// A request is taken exactly when it is in this protocol, for this adapter, project and model, and
/// names files throughout and at least one trace; and where only a trace is no file, the first
/// such is named.
pub proof fn requests_are_taken_for_what_is_here(q: ReplayRequest)
    ensures
        ({
            let ours = q.protocol@ == "fmctl.adapter.v1"@ && q.adapter@ == "rust"@ && q.project@
                == "fiducia-brain.rs"@ && q.model@ == "brain-scheduler"@;
            let there = q.specification_is_file && q.traces@.len() > 0;
            let all = forall|i: int| 0 <= i < q.traces@.len() ==> (#[trigger] q.traces@[i]).1;
            &&& replay::request_fault(q) is None <==> ours && there && all
            &&& ours && there && !all ==> exists|i: int|
                0 <= i < q.traces@.len() && !(#[trigger] q.traces@[i]).1
                    && replay::request_fault(q) == Some(
                    "request trace is not a file: "@ + q.traces@[i].0@,
                ) && forall|j: int| 0 <= j < i ==> (#[trigger] q.traces@[j]).1
        }),
{
    absent_is_first(q.traces@);
}

/// The trace files are those whose last component ends in `.itf.json`, and no others.
pub proof fn trace_files_are_picked(files: Seq<Seq<Seq<char>>>)
    ensures
        replay::trace_paths(files) == files.filter(
            |p: Seq<Seq<char>>|
                p.len() > 0 && p.last().len() >= 9 && p.last().skip(p.last().len() - 9)
                    == ".itf.json"@,
        ),
    decreases files.len(),
{
    reveal(Seq::filter);
    reveal_strlit(".itf.json");
    if files.len() > 0 {
        trace_files_are_picked(files.drop_last());
    }
}

/// Of two paths that agree up to a component the one that ends there sorts first, and where both go
/// on, the one whose component does.
pub proof fn the_first_component_that_differs_decides(
    a: Seq<Seq<char>>,
    b: Seq<Seq<char>>,
    k: int,
)
    requires
        0 <= k <= a.len(),
        k <= b.len(),
        forall|i: int| 0 <= i < k ==> a[i] == b[i],
        (k == a.len() && k < b.len()) || (k < a.len() && k < b.len() && text::text_lt(a[k], b[k])),
    ensures
        replay::path_lt(a, b),
        !replay::path_lt(b, a),
    decreases k,
{
    if k > 0 {
        let c = a.drop_first();
        let d = b.drop_first();
        assert forall|i: int| 0 <= i < k - 1 implies c[i] == d[i] by {
            assert(a[i + 1] == b[i + 1]);
        }
        assert(k < a.len() ==> c[k - 1] == a[k]);
        assert(k < b.len() ==> d[k - 1] == b[k]);
        assert(a[0] == b[0]);
        text::text_lt_irreflexive(a[0]);
        the_first_component_that_differs_decides(c, d, k - 1);
    } else if k < a.len() {
        text::text_lt_irreflexive(a[0]);
        if text::text_lt(b[0], a[0]) {
            text::text_lt_transitive(a[0], b[0], a[0]);
        }
        if a[0] == b[0] {
            assert(false);
        }
    }
}

/// The actions that are missing are those of the list that are not there, in order.
pub proof fn missing_is_what_is_not_there(list: Seq<Seq<char>>, set: Set<Seq<char>>)
    ensures
        replay::missing_from(list, set) == list.filter(|t: Seq<char>| !set.contains(t)),
    decreases list.len(),
{
    reveal(Seq::filter);
    if list.len() > 0 {
        missing_is_what_is_not_there(list.drop_last(), set);
    }
}

/// The files that fail are those that do not pass, in order.
pub proof fn failing_is_not_passing(traces: Seq<TraceModel>)
    ensures
        replay::failing(traces) == traces.filter(|t: TraceModel| !replay::passes(t)),
    decreases traces.len(),
{
    reveal(Seq::filter);
    if traces.len() > 0 {
        failing_is_not_passing(traces.drop_last());
    }
}

/// A trace goes through its first action and the one of every later step.
pub proof fn traces_go_through_their_actions(states: Seq<JsonModel>, n: int, action: Seq<char>)
    ensures
        replay::actions_before(states, n).contains(action) <==> action == "init"@ || exists|i: int|
            1 <= i < n && #[trigger] replay::action_at(states, i) == Some(action),
    decreases n,
{
    if n > 1 {
        traces_go_through_their_actions(states, n - 1, action);
        if replay::action_at(states, n - 1) == Some(action) {
            assert(1 <= n - 1 < n);
        }
    }
}

/// The actions of the steps behind the first, up to one of them.
pub open spec fn later_actions(states: Seq<JsonModel>, n: int) -> Seq<Option<Seq<char>>> {
    Seq::new(
        if n > 1 {
            (n - 1) as nat
        } else {
            0
        },
        |i: int| replay::action_at(states, i + 1),
    )
}

/// The steps that do something are those behind the first whose action is not to idle.
pub proof fn idle_steps_do_not_count(states: Seq<JsonModel>, n: int)
    ensures
        replay::busy_steps(states, n) == later_actions(states, n).filter(
            |a: Option<Seq<char>>| a != Some("idle"@),
        ).len(),
    decreases n,
{
    reveal(Seq::filter);
    let all = later_actions(states, n);
    if n > 1 {
        idle_steps_do_not_count(states, n - 1);
        assert(all.drop_last() =~= later_actions(states, n - 1));
        assert(all.last() == replay::action_at(states, n - 1));
    }
}

/// What a corpus went through is what its files that pass did: a further file adds its states and
/// its steps that do something if it passes, and nothing otherwise.
pub proof fn passing_files_add_up(traces: Seq<TraceModel>, more: TraceModel)
    ensures
        replay::total_states(Seq::empty()) == 0,
        replay::total_busy(Seq::empty()) == 0,
        ({
            let states = replay::states_of(more);
            let steps = later_actions(states, states.len() as int).filter(
                |a: Option<Seq<char>>| a != Some("idle"@),
            ).len();
            &&& replay::passes(more) ==> replay::total_states(traces.push(more))
                == replay::total_states(traces) + states.len() && replay::total_busy(
                traces.push(more),
            ) == replay::total_busy(traces) + steps
            &&& !replay::passes(more) ==> replay::total_states(traces.push(more))
                == replay::total_states(traces) && replay::total_busy(traces.push(more))
                == replay::total_busy(traces)
        }),
{
    let states = replay::states_of(more);
    idle_steps_do_not_count(states, states.len() as int);
    assert(traces.push(more).drop_last() =~= traces);
}

/// The actions that a corpus went through are those of its files that pass.
pub proof fn passing_files_cover_their_actions(traces: Seq<TraceModel>, action: Seq<char>)
    ensures
        replay::all_actions(traces).contains(action) <==> exists|k: int|
            0 <= k < traces.len() && replay::passes(#[trigger] traces[k])
                && replay::actions_before(
                replay::states_of(traces[k]),
                replay::states_of(traces[k]).len() as int,
            ).contains(action),
    decreases traces.len(),
{
    if traces.len() > 0 {
        let rest = traces.drop_last();
        passing_files_cover_their_actions(rest, action);
        if replay::all_actions(rest).contains(action) {
            let k = choose|k: int|
                0 <= k < rest.len() && replay::passes(#[trigger] rest[k]) && replay::actions_before(
                    replay::states_of(rest[k]),
                    replay::states_of(rest[k]).len() as int,
                ).contains(action);
            assert(traces[k] == rest[k]);
        }
        if exists|k: int|
            0 <= k < traces.len() && replay::passes(#[trigger] traces[k])
                && replay::actions_before(
                replay::states_of(traces[k]),
                replay::states_of(traces[k]).len() as int,
            ).contains(action) {
            let k = choose|k: int|
                0 <= k < traces.len() && replay::passes(#[trigger] traces[k])
                    && replay::actions_before(
                    replay::states_of(traces[k]),
                    replay::states_of(traces[k]).len() as int,
                ).contains(action);
            if k < rest.len() {
                assert(rest[k] == traces[k]);
            }
        }
    }
}

/// A field holds a number as digits under its tag or plainly, and nothing else is a number.
pub proof fn numbers_are_tagged_or_plain(value: JsonModel)
    ensures
        ({
            let tagged = value.member("#bigint"@).as_text();
            let digits = tagged is Some && decimal::unsigned_of(tagged->0) is Some;
            &&& digits ==> replay::number_in(value) == decimal::unsigned_of(tagged->0)
            &&& !digits ==> replay::number_in(value) == value.as_unsigned()
        }),
{
}

/// Whether a field holds a set of numbers.
pub open spec fn holds_set(value: JsonModel) -> bool {
    value.member("#set"@).as_array() matches Some(values) && forall|i: int|
        0 <= i < values.len() ==> replay::number_in(#[trigger] values[i]) is Some
}

/// Whether a number is a member of the set that a field holds.
pub open spec fn set_has(value: JsonModel, n: u64) -> bool {
    value.member("#set"@).as_array() matches Some(values) && exists|i: int|
        0 <= i < values.len() && replay::number_in(#[trigger] values[i]) == Some(n)
}

/// A recorded state can be read exactly when every field that is looked at holds what it should, and
/// then each part of what an observer sees is in the field of its name.
pub proof fn recorded_states_are_read_field_by_field(s: JsonModel, n: u64)
    ensures
        replay::state_fault(s) is None <==> {
            &&& s.member("role"@).member("tag"@).as_text() is Some
            &&& holds_set(s.member("known"@)) && holds_set(s.member("healthy"@))
            &&& holds_set(s.member("draining"@)) && holds_set(s.member("hosted"@))
            &&& holds_set(s.member("placement"@)) && holds_set(s.member("forgotten"@))
            &&& replay::number_in(s.member("observed_leader"@)) is Some
            &&& replay::number_in(s.member("preferred_leader"@)) is Some
            &&& replay::number_in(s.member("generation"@)) is Some
        },
        replay::state_fault(s) is None ==> {
            let p = replay::recorded(s);
            &&& p.leader <==> s.member("role"@).member("tag"@).as_text() == Some("Leader"@)
            &&& p.known.contains(n) <==> set_has(s.member("known"@), n)
            &&& p.healthy.contains(n) <==> set_has(s.member("healthy"@), n)
            &&& p.draining.contains(n) <==> set_has(s.member("draining"@), n)
            &&& p.hosted.contains(n) <==> set_has(s.member("hosted"@), n)
            &&& p.placement.contains(n) <==> set_has(s.member("placement"@), n)
            &&& p.forgotten.contains(n) <==> set_has(s.member("forgotten"@), n)
            &&& Some(p.observed_leader) == replay::number_in(s.member("observed_leader"@))
            &&& Some(p.preferred_leader) == replay::number_in(s.member("preferred_leader"@))
            &&& Some(p.generation) == replay::number_in(s.member("generation"@))
        },
{
}

/// A trace is followed exactly when it has a state, every step behind the first has an action that
/// can be taken after those before it, and an observer sees at every step what is recorded there.
pub proof fn traces_are_followed_step_by_step(document: JsonModel)
    ensures
        replay::conforms(document) <==> (document.member("states"@).as_array() matches Some(states)
            && states.len() > 0 && forall|i: int|
            #![trigger states[i]]
            0 <= i < states.len() ==> {
                &&& i > 0 ==> {
                    &&& replay::action_at(states, i) is Some
                    &&& replay::harness_at(states, i - 1).can_act(replay::action_at(states, i)->0)
                    &&& replay::harness_at(states, i) == replay::harness_at(states, i - 1).acting(
                        replay::action_at(states, i)->0,
                    )
                }
                &&& replay::state_fault(states[i].member("s"@)) is None
                &&& replay::harness_at(states, i).projection() == replay::recorded(
                    states[i].member("s"@),
                )
            }),
{
    if let Some(states) = document.member("states"@).as_array() {
        if replay::conforms(document) {
            assert forall|i: int| 0 <= i < states.len() implies replay::conforms_at(
                states,
                i,
            ) by {}
            assert forall|i: int|
                #![trigger states[i]]
                0 <= i < states.len() implies {
                &&& i > 0 ==> {
                    &&& replay::action_at(states, i) is Some
                    &&& replay::harness_at(states, i - 1).can_act(replay::action_at(states, i)->0)
                    &&& replay::harness_at(states, i) == replay::harness_at(states, i - 1).acting(
                        replay::action_at(states, i)->0,
                    )
                }
                &&& replay::state_fault(states[i].member("s"@)) is None
                &&& replay::harness_at(states, i).projection() == replay::recorded(
                    states[i].member("s"@),
                )
            } by {
                assert(replay::conforms_at(states, i));
            }
        }
    }
}

/// A replay that succeeds had at least one trace, as many passes as traces, and no mismatch.
pub proof fn success_is_without_mismatch(r: ReplaySummary)
    ensures
        replay::succeeds(r) <==> r.traces_total >= 1 && r.traces_total == r.traces_passed
            && r.mismatches@.len() == 0,
{
}

} // verus!
