//! Replays recorded traces of the scheduler against the cluster and says where they part.

use crate::decimal;
use crate::decimal::{append_text, parse_unsigned};
use crate::harness;
use crate::harness::{numbers_in, quote, Harness, HarnessModel, Projection, ProjectionModel};
use crate::ids::IdSet;
use crate::json;
use crate::json::{parse_document, Json, JsonModel};
use crate::text;
use crate::text::{copy_texts, text_before, text_eq, to_chars};
use std::collections::BTreeSet;
use vstd::prelude::*;

verus! {

/// The number that a field of a trace holds.
pub open spec fn number_in(value: JsonModel) -> Option<u64> {
    match value.member("#bigint"@).as_text() {
        Some(raw) => match decimal::unsigned_of(raw) {
            Some(n) => Some(n),
            None => value.as_unsigned(),
        },
        None => value.as_unsigned(),
    }
}

/// The message about a field that holds no number.
pub open spec fn not_a_number(field: Seq<char>) -> Seq<char> {
    "ITF field "@ + field + " is not a non-negative integer"@
}

/// The message about a field that holds no set.
pub open spec fn not_a_set(field: Seq<char>) -> Seq<char> {
    "ITF field "@ + field + " is not a set"@
}

fn about(field: &str, rest: &str) -> (r: String)
    ensures
        r@ == "ITF field "@ + field@ + rest@,
{
    let mut r = "ITF field ".to_owned();
    append_text(&mut r, field);
    append_text(&mut r, rest);
    r
}

/// Reads a number.
pub fn itf_bigint(value: &Json, field: &str) -> (r: Result<u64, String>)
    ensures
        match r {
            Ok(n) => number_in(value.deep_view()) == Some(n),
            Err(e) => number_in(value.deep_view()) is None && e@ == not_a_number(field@),
        },
{
    if let Some(raw) = value.member("#bigint").as_text() {
        if let Some(n) = parse_unsigned(raw.as_str()) {
            return Ok(n);
        }
    }
    match value.as_unsigned() {
        Some(n) => Ok(n),
        None => Err(about(field, " is not a non-negative integer")),
    }
}

/// The numbers that a list of fields holds.
pub open spec fn numbers_listed(values: Seq<JsonModel>) -> Set<u64> {
    Set::new(
        |n: u64| exists|i: int| 0 <= i < values.len() && number_in(#[trigger] values[i]) == Some(n),
    )
}

/// Whether every field of a list holds a number.
pub open spec fn all_numbers(values: Seq<JsonModel>) -> bool {
    forall|i: int| 0 <= i < values.len() ==> number_in(#[trigger] values[i]) is Some
}

/// What is wrong with a field that should hold a set of numbers.
pub open spec fn set_fault(value: JsonModel, field: Seq<char>) -> Option<Seq<char>> {
    match value.member("#set"@).as_array() {
        None => Some(not_a_set(field)),
        Some(values) => if all_numbers(values) {
            None
        } else {
            Some(not_a_number(field))
        },
    }
}

/// The set of numbers that a field holds.
pub open spec fn set_in(value: JsonModel) -> Set<u64> {
    match value.member("#set"@).as_array() {
        None => Set::empty(),
        Some(values) => numbers_listed(values),
    }
}

/// Reads a set of numbers.
pub fn itf_set(value: &Json, field: &str) -> (r: Result<BTreeSet<u64>, String>)
    ensures
        match r {
            Ok(set) => set_fault(value.deep_view(), field@) is None && set@ == set_in(
                value.deep_view(),
            ),
            Err(e) => set_fault(value.deep_view(), field@) == Some(e@),
        },
{
    let values = match value.member("#set").as_array() {
        Some(v) => v,
        None => {
            return Err(about(field, " is not a set"));
        },
    };
    let ghost model = values.deep_view();
    let mut set: BTreeSet<u64> = BTreeSet::new();
    let mut i: usize = 0;
    while i < values.len()
        invariant
            i <= values.len(),
            model == values.deep_view(),
            value.deep_view().member("#set"@).as_array() == Some(model),
            forall|k: int| 0 <= k < i ==> number_in(#[trigger] model[k]) is Some,
            forall|x: u64| #[trigger]
                set@.contains(x) <==> exists|k: int|
                    0 <= k < i && number_in(#[trigger] model[k]) == Some(x),
        decreases values.len() - i,
    {
        assert(model[i as int] == values@[i as int].deep_view());
        match itf_bigint(&values[i], field) {
            Ok(n) => {
                let ghost before = set@;
                harness::take_number(&mut set, n);
                assert forall|x: u64| #[trigger]
                    set@.contains(x) <==> exists|k: int|
                        0 <= k < i + 1 && number_in(#[trigger] model[k]) == Some(x) by {
                    assert(before.contains(x) <==> exists|k: int|
                        0 <= k < i && number_in(#[trigger] model[k]) == Some(x));
                    if x == n {
                        assert(number_in(model[i as int]) == Some(x));
                    }
                }
            },
            Err(e) => {
                return Err(e);
            },
        }
        i += 1;
    }
    assert(set@ =~= numbers_listed(model));
    Ok(set)
}

/// The first message there is.
pub open spec fn first_of(a: Option<Seq<char>>, b: Option<Seq<char>>) -> Option<Seq<char>> {
    match a {
        Some(m) => Some(m),
        None => b,
    }
}

/// What is wrong with a field that should hold a number.
pub open spec fn number_fault(value: JsonModel, field: Seq<char>) -> Option<Seq<char>> {
    if number_in(value) is Some {
        None
    } else {
        Some(not_a_number(field))
    }
}

/// What is wrong with a recorded state: the first of its fields that cannot be read.
pub open spec fn state_fault(s: JsonModel) -> Option<Seq<char>> {
    let tag = if s.member("role"@).member("tag"@).as_text() is Some {
        None
    } else {
        Some("ITF tagged value has no tag"@)
    };
    let known = first_of(tag, set_fault(s.member("known"@), "known"@));
    let healthy = first_of(known, set_fault(s.member("healthy"@), "healthy"@));
    let draining = first_of(healthy, set_fault(s.member("draining"@), "draining"@));
    let hosted = first_of(draining, set_fault(s.member("hosted"@), "hosted"@));
    let observed = first_of(
        hosted,
        number_fault(s.member("observed_leader"@), "observed_leader"@),
    );
    let placement = first_of(observed, set_fault(s.member("placement"@), "placement"@));
    let preferred = first_of(
        placement,
        number_fault(s.member("preferred_leader"@), "preferred_leader"@),
    );
    let generation = first_of(preferred, number_fault(s.member("generation"@), "generation"@));
    first_of(generation, set_fault(s.member("forgotten"@), "forgotten"@))
}

/// The number that a field holds, where it holds one.
pub open spec fn number_read(value: JsonModel) -> u64 {
    match number_in(value) {
        Some(n) => n,
        None => 0,
    }
}

/// What a recorded state says an observer sees.
pub open spec fn recorded(s: JsonModel) -> ProjectionModel {
    ProjectionModel {
        leader: s.member("role"@).member("tag"@).as_text() == Some("Leader"@),
        known: set_in(s.member("known"@)),
        healthy: set_in(s.member("healthy"@)),
        draining: set_in(s.member("draining"@)),
        hosted: set_in(s.member("hosted"@)),
        observed_leader: number_read(s.member("observed_leader"@)),
        placement: set_in(s.member("placement"@)),
        preferred_leader: number_read(s.member("preferred_leader"@)),
        generation: number_read(s.member("generation"@)),
        forgotten: set_in(s.member("forgotten"@)),
    }
}

/// Reads what a recorded state says an observer sees.
pub fn expected_projection(s: &Json) -> (r: Result<Projection, String>)
    ensures
        match r {
            Ok(p) => state_fault(s.deep_view()) is None && p@ == recorded(s.deep_view()),
            Err(e) => state_fault(s.deep_view()) == Some(e@),
        },
{
    let leader: bool = match s.member("role").member("tag").as_text() {
        Some(tag) => text_eq(tag.as_str(), "Leader"),
        None => {
            return Err("ITF tagged value has no tag".to_owned());
        },
    };
    let known = match itf_set(s.member("known"), "known") {
        Ok(v) => v,
        Err(e) => {
            return Err(e);
        },
    };
    let healthy = match itf_set(s.member("healthy"), "healthy") {
        Ok(v) => v,
        Err(e) => {
            return Err(e);
        },
    };
    let draining = match itf_set(s.member("draining"), "draining") {
        Ok(v) => v,
        Err(e) => {
            return Err(e);
        },
    };
    let hosted = match itf_set(s.member("hosted"), "hosted") {
        Ok(v) => v,
        Err(e) => {
            return Err(e);
        },
    };
    let observed_leader: u64 = match itf_bigint(s.member("observed_leader"), "observed_leader") {
        Ok(v) => v,
        Err(e) => {
            return Err(e);
        },
    };
    let placement = match itf_set(s.member("placement"), "placement") {
        Ok(v) => v,
        Err(e) => {
            return Err(e);
        },
    };
    let preferred_leader: u64 = match itf_bigint(
        s.member("preferred_leader"),
        "preferred_leader",
    ) {
        Ok(v) => v,
        Err(e) => {
            return Err(e);
        },
    };
    let generation: u64 = match itf_bigint(s.member("generation"), "generation") {
        Ok(v) => v,
        Err(e) => {
            return Err(e);
        },
    };
    let forgotten = match itf_set(s.member("forgotten"), "forgotten") {
        Ok(v) => v,
        Err(e) => {
            return Err(e);
        },
    };
    Ok(
        Projection {
            leader,
            known,
            healthy,
            draining,
            hosted,
            observed_leader,
            placement,
            preferred_leader,
            generation,
            forgotten,
        },
    )
}

/// Whether a JSON value lists the members of a set in ascending order.
pub open spec fn shows_set(j: JsonModel, set: Set<u64>) -> bool {
    exists|l: Seq<u64>| #[trigger] harness::counts_up(l) && l.to_set() == set && j
        == JsonModel::Array(l.map_values(|n: u64| JsonModel::Unsigned(n)))
}

/// Whether a JSON value shows what an observer sees, its keys in ascending order.
pub open spec fn shows_projection(j: JsonModel, p: ProjectionModel) -> bool {
    &&& j matches JsonModel::Object(e)
    &&& e.len() == 10
    &&& e[0].0 == "draining"@ && shows_set(e[0].1, p.draining)
    &&& e[1].0 == "forgotten"@ && shows_set(e[1].1, p.forgotten)
    &&& e[2] == ("generation"@, JsonModel::Unsigned(p.generation))
    &&& e[3].0 == "healthy"@ && shows_set(e[3].1, p.healthy)
    &&& e[4].0 == "hosted"@ && shows_set(e[4].1, p.hosted)
    &&& e[5].0 == "known"@ && shows_set(e[5].1, p.known)
    &&& e[6] == ("leader"@, JsonModel::Bool(p.leader))
    &&& e[7] == ("observed_leader"@, JsonModel::Unsigned(p.observed_leader))
    &&& e[8].0 == "placement"@ && shows_set(e[8].1, p.placement)
    &&& e[9] == ("preferred_leader"@, JsonModel::Unsigned(p.preferred_leader))
}

fn set_json(set: &BTreeSet<u64>) -> (r: Json)
    ensures
        shows_set(r.deep_view(), set@),
{
    let numbers = numbers_in(set);
    let mut items: Vec<Json> = Vec::new();
    let mut i: usize = 0;
    while i < numbers.len()
        invariant
            i <= numbers.len(),
            items.len() == i,
            forall|k: int| 0 <= k < i ==> items@[k] == Json::Unsigned(numbers@[k]),
        decreases numbers.len() - i,
    {
        items.push(Json::Unsigned(numbers[i]));
        i += 1;
    }
    let r = Json::Array(items);
    proof {
        reveal_with_fuel(json::json_model, 2);
    }
    assert(r.deep_view()->Array_0 =~= numbers@.map_values(|n: u64| JsonModel::Unsigned(n)));
    r
}

fn entry(key: &str, value: Json) -> (r: (String, Json))
    ensures
        r.0@ == key@,
        r.1 == value,
{
    (key.to_owned(), value)
}

/// Shows what an observer sees.
pub fn projection_json(p: &Projection) -> (r: Json)
    ensures
        shows_projection(r.deep_view(), p@),
{
    let mut e: Vec<(String, Json)> = Vec::new();
    e.push(entry("draining", set_json(&p.draining)));
    e.push(entry("forgotten", set_json(&p.forgotten)));
    e.push(entry("generation", Json::Unsigned(p.generation)));
    e.push(entry("healthy", set_json(&p.healthy)));
    e.push(entry("hosted", set_json(&p.hosted)));
    e.push(entry("known", set_json(&p.known)));
    e.push(entry("leader", Json::Bool(p.leader)));
    e.push(entry("observed_leader", Json::Unsigned(p.observed_leader)));
    e.push(entry("placement", set_json(&p.placement)));
    e.push(entry("preferred_leader", Json::Unsigned(p.preferred_leader)));
    let r = Json::Object(e);
    proof {
        let m = r.deep_view()->Object_0;
        assert(m.len() == 10);
        assert forall|i: int| 0 <= i < 10 implies #[trigger] m[i] == (e@[i].0@, e@[i].1.deep_view()) by {
        }
        assert(e@[2].1.deep_view() == JsonModel::Unsigned(p.generation));
        assert(e@[6].1.deep_view() == JsonModel::Bool(p.leader));
        assert(e@[7].1.deep_view() == JsonModel::Unsigned(p.observed_leader));
        assert(e@[9].1.deep_view() == JsonModel::Unsigned(p.preferred_leader));
    }
    r
}

/// The action that a trace records for a step.
pub open spec fn action_at(states: Seq<JsonModel>, i: int) -> Option<Seq<char>> {
    states[i].member("mbt::actionTaken"@).as_text()
}

/// The cluster after the actions of the steps up to one of them.
pub open spec fn harness_at(states: Seq<JsonModel>, i: int) -> HarnessModel
    decreases i,
{
    if i <= 0 {
        HarnessModel::initial()
    } else {
        match action_at(states, i) {
            Some(action) => harness_at(states, i - 1).acting(action),
            None => harness_at(states, i - 1),
        }
    }
}

/// Whether an observer sees at a step what the trace records there.
pub open spec fn seen_at(states: Seq<JsonModel>, i: int) -> bool {
    let s = states[i].member("s"@);
    state_fault(s) is None && harness_at(states, i).projection() == recorded(s)
}

/// Whether the cluster follows a trace at a step.
pub open spec fn conforms_at(states: Seq<JsonModel>, i: int) -> bool {
    &&& i > 0 ==> (action_at(states, i) matches Some(action) && harness_at(
        states,
        i - 1,
    ).can_act(action))
    &&& seen_at(states, i)
}

/// Whether a step is the first at which the cluster does not follow a trace.
pub open spec fn diverges_at(states: Seq<JsonModel>, i: int) -> bool {
    &&& 0 <= i < states.len()
    &&& !conforms_at(states, i)
    &&& forall|k: int| 0 <= k < i ==> conforms_at(states, k)
}

/// Whether a document is a trace that the cluster follows from beginning to end.
pub open spec fn conforms(document: JsonModel) -> bool {
    match document.member("states"@).as_array() {
        Some(states) => states.len() > 0 && forall|i: int|
            0 <= i < states.len() ==> #[trigger] conforms_at(states, i),
        None => false,
    }
}

/// Where a trace and the cluster part.
#[derive(Debug)]
pub struct ReplayMismatch {
    pub trace: String,
    pub step: Option<u64>,
    pub action: Option<String>,
    pub message: String,
    pub expected: Json,
    pub actual: Json,
}

/// The value of a [`ReplayMismatch`].
pub struct MismatchModel {
    pub trace: Seq<char>,
    pub step: Option<u64>,
    pub action: Option<Seq<char>>,
    pub message: Seq<char>,
    pub expected: JsonModel,
    pub actual: JsonModel,
}

impl DeepView for ReplayMismatch {
    type V = MismatchModel;

    open spec fn deep_view(&self) -> MismatchModel {
        MismatchModel {
            trace: self.trace@,
            step: self.step,
            action: self.action.deep_view(),
            message: self.message@,
            expected: self.expected.deep_view(),
            actual: self.actual.deep_view(),
        }
    }
}

/// A mismatch that shows neither side.
pub open spec fn bare_mismatch(
    trace: Seq<char>,
    step: Option<u64>,
    action: Option<Seq<char>>,
    message: Seq<char>,
) -> MismatchModel {
    MismatchModel {
        trace,
        step,
        action,
        message,
        expected: JsonModel::Null,
        actual: JsonModel::Null,
    }
}

fn mismatch(trace: &str, step: Option<u64>, action: Option<String>, message: String) -> (r:
    ReplayMismatch)
    ensures
        r.deep_view() == bare_mismatch(trace@, step, action.deep_view(), message@),
{
    ReplayMismatch {
        trace: trace.to_owned(),
        step,
        action,
        message,
        expected: Json::Null,
        actual: Json::Null,
    }
}

/// The action of a step; the first has none of its own.
pub open spec fn step_action(states: Seq<JsonModel>, i: int) -> Option<Seq<char>> {
    if i == 0 {
        Some("init"@)
    } else {
        action_at(states, i)
    }
}

/// Whether a mismatch says what is wrong at a step.
pub open spec fn describes(
    m: MismatchModel,
    trace: Seq<char>,
    states: Seq<JsonModel>,
    i: int,
) -> bool {
    let s = states[i].member("s"@);
    let step = Some(i as u64);
    let action = step_action(states, i);
    if action is None {
        m == bare_mismatch(trace, step, None, "ITF state has no mbt::actionTaken"@)
    } else if i > 0 && !harness_at(states, i - 1).can_act(action->0) {
        &&& m.trace == trace && m.step == step && m.action == action
        &&& harness_at(states, i - 1).complains(action->0, m.message)
        &&& m.expected == s
        &&& shows_projection(m.actual, harness_at(states, i).projection())
    } else {
        match state_fault(s) {
            Some(message) => m == bare_mismatch(trace, step, action, message),
            None => {
                &&& m.trace == trace && m.step == step && m.action == action
                &&& m.message == "production scheduler observable state diverged from Quint"@
                &&& shows_projection(m.expected, recorded(s))
                &&& shows_projection(m.actual, harness_at(states, i).projection())
            },
        }
    }
}

/// Whether a mismatch says why the cluster does not follow a document.
pub open spec fn explains(m: MismatchModel, trace: Seq<char>, document: JsonModel) -> bool {
    match document.member("states"@).as_array() {
        None => m == bare_mismatch(trace, None, None, "ITF trace has no states array"@),
        Some(states) => if states.len() == 0 {
            m == bare_mismatch(trace, None, None, "ITF trace contains no states"@)
        } else {
            exists|i: int| #[trigger] diverges_at(states, i) && describes(m, trace, states, i)
        },
    }
}

fn projection_mismatch(
    trace: &str,
    step: u64,
    action: String,
    expected: &Projection,
    actual: &Projection,
) -> (r: ReplayMismatch)
    ensures
        ({
            let m = r.deep_view();
            &&& m.trace == trace@ && m.step == Some(step) && m.action == Some(action@)
            &&& m.message == "production scheduler observable state diverged from Quint"@
            &&& shows_projection(m.expected, expected@)
            &&& shows_projection(m.actual, actual@)
        }),
{
    ReplayMismatch {
        trace: trace.to_owned(),
        step: Some(step),
        action: Some(action),
        message: "production scheduler observable state diverged from Quint".to_owned(),
        expected: projection_json(expected),
        actual: projection_json(actual),
    }
}

/// The number of steps before one of them that do something.
pub open spec fn busy_steps(states: Seq<JsonModel>, i: int) -> nat
    decreases i,
{
    if i <= 1 {
        0
    } else {
        busy_steps(states, i - 1) + if action_at(states, i - 1) != Some("idle"@) {
            1nat
        } else {
            0nat
        }
    }
}

/// The actions of the steps before one of them.
pub open spec fn actions_before(states: Seq<JsonModel>, i: int) -> Set<Seq<char>>
    decreases i,
{
    if i <= 1 {
        Set::empty().insert("init"@)
    } else {
        match action_at(states, i - 1) {
            Some(a) => actions_before(states, i - 1).insert(a),
            None => actions_before(states, i - 1),
        }
    }
}

/// What a trace went through.
pub struct TraceSummary {
    pub states: usize,
    pub non_idle_transitions: usize,
    pub actions: IdSet,
}

/// Compares what is seen at a step with what is recorded there.
fn check_step(trace: &str, step: u64, action: &str, s: &Json, harness: &Harness) -> (r: Result<
    (),
    ReplayMismatch,
>)
    ensures
        match r {
            Ok(_) => state_fault(s.deep_view()) is None && harness@.projection() == recorded(
                s.deep_view(),
            ),
            Err(e) => {
                let m = e.deep_view();
                match state_fault(s.deep_view()) {
                    Some(message) => m == bare_mismatch(
                        trace@,
                        Some(step),
                        Some(action@),
                        message,
                    ),
                    None => {
                        &&& harness@.projection() != recorded(s.deep_view())
                        &&& m.trace == trace@ && m.step == Some(step) && m.action == Some(action@)
                        &&& m.message
                            == "production scheduler observable state diverged from Quint"@
                        &&& shows_projection(m.expected, recorded(s.deep_view()))
                        &&& shows_projection(m.actual, harness@.projection())
                    },
                }
            },
        },
{
    let expected = match expected_projection(s) {
        Ok(p) => p,
        Err(message) => {
            return Err(mismatch(trace, Some(step), Some(action.to_owned()), message));
        },
    };
    let actual = harness.projection();
    if !actual.same(&expected) {
        return Err(projection_mismatch(trace, step, action.to_owned(), &expected, &actual));
    }
    Ok(())
}

/// Replays one trace.
pub fn replay_trace(trace: &str, document: &Json) -> (r: Result<TraceSummary, ReplayMismatch>)
    ensures
        match r {
            Ok(t) => {
                let states = document.deep_view().member("states"@).as_array()->0;
                &&& conforms(document.deep_view())
                &&& t.states == states.len()
                &&& t.non_idle_transitions == busy_steps(states, states.len() as int)
                &&& t.actions@ == actions_before(states, states.len() as int)
            },
            Err(e) => !conforms(document.deep_view()) && explains(
                e.deep_view(),
                trace@,
                document.deep_view(),
            ),
        },
{
    let states = match document.member("states").as_array() {
        Some(v) => v,
        None => {
            return Err(mismatch(trace, None, None, "ITF trace has no states array".to_owned()));
        },
    };
    let ghost model = states.deep_view();
    if states.is_empty() {
        return Err(mismatch(trace, None, None, "ITF trace contains no states".to_owned()));
    }
    let mut harness = Harness::initial();
    assert(model[0] == states@[0].deep_view());
    match check_step(trace, 0, "init", states[0].member("s"), &harness) {
        Ok(_) => {},
        Err(e) => {
            assert(diverges_at(model, 0));
            return Err(e);
        },
    }
    let mut actions = IdSet::new();
    actions.insert("init".to_owned());
    let mut busy: usize = 0;
    let mut i: usize = 1;
    while i < states.len()
        invariant
            1 <= i <= states.len(),
            model == states.deep_view(),
            document.deep_view().member("states"@).as_array() == Some(model),
            harness@ == harness_at(model, i - 1),
            forall|k: int| 0 <= k < i ==> #[trigger] conforms_at(model, k),
            busy == busy_steps(model, i as int),
            busy <= i,
            actions@ == actions_before(model, i as int),
        decreases states.len() - i,
    {
        let state = &states[i];
        assert(model[i as int] == state.deep_view());
        let action = match state.member("mbt::actionTaken").as_text() {
            Some(a) => a,
            None => {
                assert(diverges_at(model, i as int));
                return Err(
                    mismatch(
                        trace,
                        Some(i as u64),
                        None,
                        "ITF state has no mbt::actionTaken".to_owned(),
                    ),
                );
            },
        };
        assert(action_at(model, i as int) == Some(action@));
        actions.insert(action.clone());
        if !text_eq(action.as_str(), "idle") {
            busy += 1;
        }
        match harness.apply(action.as_str()) {
            Ok(_) => {},
            Err(message) => {
                assert(diverges_at(model, i as int));
                return Err(
                    ReplayMismatch {
                        trace: trace.to_owned(),
                        step: Some(i as u64),
                        action: Some(action.clone()),
                        message,
                        expected: state.member("s").clone(),
                        actual: projection_json(&harness.projection()),
                    },
                );
            },
        }
        match check_step(trace, i as u64, action.as_str(), state.member("s"), &harness) {
            Ok(_) => {},
            Err(e) => {
                assert(diverges_at(model, i as int));
                return Err(e);
            },
        }
        i += 1;
    }
    Ok(TraceSummary { states: states.len(), non_idle_transitions: busy, actions })
}

/// Replays the trace in a text of bytes.
pub fn replay_bytes(trace: &str, bytes: &[u8]) -> (r: Result<TraceSummary, ReplayMismatch>)
    ensures
        match json::document_of(bytes@) {
            Err(e) => r matches Err(m) && m.deep_view() == bare_mismatch(trace@, None, None, e),
            Ok(d) => match r {
                Ok(t) => {
                    let states = d.member("states"@).as_array()->0;
                    &&& conforms(d)
                    &&& t.states == states.len()
                    &&& t.non_idle_transitions == busy_steps(states, states.len() as int)
                    &&& t.actions@ == actions_before(states, states.len() as int)
                },
                Err(m) => !conforms(d) && explains(m.deep_view(), trace@, d),
            },
        },
{
    match parse_document(bytes) {
        Ok(document) => replay_trace(trace, &document),
        Err(e) => Err(mismatch(trace, None, None, e)),
    }
}

/// The actions that a corpus of traces has to cover.
pub open spec fn required() -> Seq<Seq<char>> {
    seq![
        "add_d"@,
        "attempt_forget_a_rejected"@,
        "become_follower"@,
        "become_leader"@,
        "begin_drain_a"@,
        "evacuate_a"@,
        "heartbeat_a"@,
        "lose_a_from_soft_membership"@,
        "mark_a_dead"@,
        "prepare_cold_start"@,
        "reconcile_cold_adopt"@,
        "reconcile_degraded_hold"@,
        "reconcile_follower_hold"@,
        "reconcile_forget_drained_a_after_placement"@,
        "reconcile_idempotent"@,
        "reconcile_incomplete_hold"@,
        "reconcile_replace_and_forget_drained_a"@,
        "reconcile_replace_dead_a"@,
        "restore_snapshot_bcd"@,
    ]
}

/// The actions that a corpus of traces has to cover.
pub fn required_actions() -> (r: Vec<String>)
    ensures
        r.deep_view() == required(),
{
    let mut r: Vec<String> = Vec::new();
    r.push("add_d".to_owned());
    r.push("attempt_forget_a_rejected".to_owned());
    r.push("become_follower".to_owned());
    r.push("become_leader".to_owned());
    r.push("begin_drain_a".to_owned());
    r.push("evacuate_a".to_owned());
    r.push("heartbeat_a".to_owned());
    r.push("lose_a_from_soft_membership".to_owned());
    r.push("mark_a_dead".to_owned());
    r.push("prepare_cold_start".to_owned());
    r.push("reconcile_cold_adopt".to_owned());
    r.push("reconcile_degraded_hold".to_owned());
    r.push("reconcile_follower_hold".to_owned());
    r.push("reconcile_forget_drained_a_after_placement".to_owned());
    r.push("reconcile_idempotent".to_owned());
    r.push("reconcile_incomplete_hold".to_owned());
    r.push("reconcile_replace_and_forget_drained_a".to_owned());
    r.push("reconcile_replace_dead_a".to_owned());
    r.push("restore_snapshot_bcd".to_owned());
    assert(r.deep_view() =~= required());
    r
}

/// The texts of a list that are not in a set, in order.
pub open spec fn missing_from(list: Seq<Seq<char>>, set: Set<Seq<char>>) -> Seq<Seq<char>>
    decreases list.len(),
{
    if list.len() == 0 {
        Seq::empty()
    } else {
        let before = missing_from(list.drop_last(), set);
        if set.contains(list.last()) {
            before
        } else {
            before.push(list.last())
        }
    }
}

fn missing_texts(list: &Vec<String>, set: &IdSet) -> (r: Vec<String>)
    ensures
        r.deep_view() == missing_from(list.deep_view(), set@),
{
    let ghost model = list.deep_view();
    let mut r: Vec<String> = Vec::new();
    let mut i: usize = 0;
    assert(r.deep_view() =~= missing_from(model.take(0), set@));
    while i < list.len()
        invariant
            i <= list.len(),
            model == list.deep_view(),
            r.deep_view() == missing_from(model.take(i as int), set@),
        decreases list.len() - i,
    {
        assert(model.take(i + 1).drop_last() =~= model.take(i as int));
        assert(model.take(i + 1).last() == list@[i as int]@);
        if !set.contains(list[i].as_str()) {
            let ghost was = r.deep_view();
            r.push(list[i].clone());
            assert(r.deep_view() =~= was.push(model[i as int]));
        }
        i += 1;
    }
    assert(model.take(model.len() as int) =~= model);
    r
}

/// Texts with commas between.
pub open spec fn comma_joined(texts: Seq<Seq<char>>) -> Seq<char>
    decreases texts.len(),
{
    if texts.len() == 0 {
        Seq::empty()
    } else if texts.len() == 1 {
        texts[0]
    } else {
        comma_joined(texts.drop_last()) + ", "@ + texts.last()
    }
}

fn append_joined(r: &mut String, texts: &Vec<String>)
    ensures
        final(r)@ == old(r)@ + comma_joined(texts.deep_view()),
{
    let ghost model = texts.deep_view();
    let ghost start = r@;
    let mut i: usize = 0;
    assert(r@ =~= start + comma_joined(model.take(0)));
    while i < texts.len()
        invariant
            i <= texts.len(),
            model == texts.deep_view(),
            r@ == start + comma_joined(model.take(i as int)),
        decreases texts.len() - i,
    {
        let ghost next = model.take(i + 1);
        assert(next.drop_last() =~= model.take(i as int));
        assert(next.last() == texts@[i as int]@);
        if i > 0 {
            append_text(r, ", ");
        }
        append_text(r, texts[i].as_str());
        assert(r@ =~= start + comma_joined(next));
        i += 1;
    }
    assert(model.take(model.len() as int) =~= model);
}

/// A JSON list of texts.
pub open spec fn text_list(texts: Seq<Seq<char>>) -> JsonModel {
    JsonModel::Array(texts.map_values(|t: Seq<char>| JsonModel::Text(t)))
}

fn texts_json(texts: &Vec<String>) -> (r: Json)
    ensures
        r.deep_view() == text_list(texts.deep_view()),
{
    let mut items: Vec<Json> = Vec::new();
    let mut i: usize = 0;
    while i < texts.len()
        invariant
            i <= texts.len(),
            items.len() == i,
            forall|k: int|
                0 <= k < i ==> (#[trigger] items@[k] matches Json::Text(t) && t@ == texts@[k]@),
        decreases texts.len() - i,
    {
        items.push(Json::Text(texts[i].clone()));
        i += 1;
    }
    let r = Json::Array(items);
    proof {
        reveal_with_fuel(json::json_model, 2);
    }
    assert(r.deep_view()->Array_0 =~= texts.deep_view().map_values(
        |t: Seq<char>| JsonModel::Text(t),
    ));
    r
}

/// Whether texts stand in strictly ascending order.
pub open spec fn texts_ascend(s: Seq<Seq<char>>) -> bool {
    forall|i: int, j: int|
        0 <= i < j < s.len() ==> text::text_lt(#[trigger] s[i], #[trigger] s[j])
}

/// Whether a JSON value lists the members of a set in ascending order.
pub open spec fn shows_texts(j: JsonModel, set: Set<Seq<char>>) -> bool {
    exists|l: Seq<Seq<char>>| #[trigger] texts_ascend(l) && l.to_set() == set && j == text_list(l)
}

/// A trace file: its name, and the bytes in it or why they could not be read.
pub struct TraceFile {
    pub name: String,
    pub contents: Result<Vec<u8>, String>,
}

/// A trace: the name of its file, and the document in it or why there is none.
pub struct Trace {
    pub name: String,
    pub document: Result<Json, String>,
}

/// The value of a [`Trace`], and of a [`TraceFile`] once its document is parsed.
pub struct TraceModel {
    pub name: Seq<char>,
    pub document: Result<JsonModel, Seq<char>>,
}

impl DeepView for Trace {
    type V = TraceModel;

    open spec fn deep_view(&self) -> TraceModel {
        TraceModel {
            name: self.name@,
            document: match self.document {
                Ok(d) => Ok(d.deep_view()),
                Err(e) => Err(e@),
            },
        }
    }
}

impl DeepView for TraceFile {
    type V = TraceModel;

    open spec fn deep_view(&self) -> TraceModel {
        TraceModel {
            name: self.name@,
            document: match self.contents {
                Ok(bytes) => json::document_of(bytes@),
                Err(e) => Err(e@),
            },
        }
    }
}

/// Whether a file holds a trace that the cluster follows.
pub open spec fn passes(t: TraceModel) -> bool {
    t.document is Ok && conforms(t.document->Ok_0)
}

/// Whether a mismatch says why a file does not pass.
pub open spec fn explains_file(m: MismatchModel, t: TraceModel) -> bool {
    match t.document {
        Ok(d) => explains(m, t.name, d),
        Err(e) => m == bare_mismatch(t.name, None, None, e),
    }
}

/// The recorded states of a file.
pub open spec fn states_of(t: TraceModel) -> Seq<JsonModel> {
    t.document->Ok_0.member("states"@).as_array()->0
}

/// The files that do not pass, in order.
pub open spec fn failing(traces: Seq<TraceModel>) -> Seq<TraceModel>
    decreases traces.len(),
{
    if traces.len() == 0 {
        Seq::empty()
    } else {
        let before = failing(traces.drop_last());
        if passes(traces.last()) {
            before
        } else {
            before.push(traces.last())
        }
    }
}

/// The states of the files that pass.
pub open spec fn total_states(traces: Seq<TraceModel>) -> nat
    decreases traces.len(),
{
    if traces.len() == 0 {
        0
    } else {
        total_states(traces.drop_last()) + if passes(traces.last()) {
            states_of(traces.last()).len()
        } else {
            0
        }
    }
}

/// The steps that do something in the files that pass.
pub open spec fn total_busy(traces: Seq<TraceModel>) -> nat
    decreases traces.len(),
{
    if traces.len() == 0 {
        0
    } else {
        total_busy(traces.drop_last()) + if passes(traces.last()) {
            busy_steps(states_of(traces.last()), states_of(traces.last()).len() as int)
        } else {
            0
        }
    }
}

/// The actions of the files that pass.
pub open spec fn all_actions(traces: Seq<TraceModel>) -> Set<Seq<char>>
    decreases traces.len(),
{
    if traces.len() == 0 {
        Set::empty()
    } else {
        let before = all_actions(traces.drop_last());
        if passes(traces.last()) {
            before.union(
                actions_before(states_of(traces.last()), states_of(traces.last()).len() as int),
            )
        } else {
            before
        }
    }
}

/// A count that stops at the largest there is.
pub open spec fn capped(n: nat) -> usize {
    if n >= usize::MAX {
        usize::MAX
    } else {
        n as usize
    }
}

/// What a corpus of traces showed.
pub struct ReplaySummary {
    pub traces_total: u64,
    pub traces_passed: u64,
    pub states: usize,
    pub non_idle_transitions: usize,
    pub actions: IdSet,
    pub mismatches: Vec<ReplayMismatch>,
}

/// Whether a mismatch says which required actions no trace covers.
pub open spec fn reports_gap(
    m: MismatchModel,
    traces: Seq<TraceModel>,
    actions: Set<Seq<char>>,
) -> bool {
    let missing = missing_from(required(), actions);
    &&& m.trace == traces[0].name
    &&& m.step is None
    &&& m.action == Some(missing[0])
    &&& m.message == "trace corpus left production scheduler branches untested: "@ + comma_joined(
        missing,
    )
    &&& m.expected == text_list(required())
    &&& shows_texts(m.actual, actions)
}

/// Whether a summary says what a corpus of traces showed: how many pass, what they went through,
/// one mismatch for each that does not, and one more where the corpus leaves actions out, which
/// also costs the last pass.
pub open spec fn summarizes(r: ReplaySummary, traces: Seq<TraceModel>) -> bool {
    let failed = failing(traces);
    let gap = traces.len() > 0 && missing_from(required(), all_actions(traces)).len() > 0;
    &&& r.traces_total == traces.len()
    &&& r.traces_passed == traces.len() - failed.len() - if gap && failed.len() == 0 {
        1int
    } else {
        0int
    }
    &&& r.states == capped(total_states(traces))
    &&& r.non_idle_transitions == capped(total_busy(traces))
    &&& r.actions@ == all_actions(traces)
    &&& r.mismatches@.len() == failed.len() + if gap {
        1int
    } else {
        0int
    }
    &&& forall|k: int|
        0 <= k < failed.len() ==> explains_file(
            (#[trigger] r.mismatches@[k]).deep_view(),
            failed[k],
        )
    &&& gap ==> reports_gap(
        r.mismatches@[failed.len() as int].deep_view(),
        traces,
        all_actions(traces),
    )
}

/// Whether a summary is one of success.
pub open spec fn succeeds(r: ReplaySummary) -> bool {
    r.traces_total > 0 && r.traces_passed == r.traces_total && r.mismatches@.len() == 0
}

impl ReplaySummary {
    /// Whether there were traces, all passed, and nothing was amiss.
    pub fn success(&self) -> (r: bool)
        ensures
            r == succeeds(*self),
    {
        self.traces_total > 0 && self.traces_passed == self.traces_total
            && self.mismatches.is_empty()
    }
}

fn take_all(set: &mut IdSet, more: &IdSet)
    ensures
        final(set)@ == old(set)@.union(more@),
{
    let members = more.listed();
    let ghost model = members.deep_view();
    let ghost start = set@;
    let mut i: usize = 0;
    assert(set@ =~= start.union(model.take(0).to_set()));
    while i < members.len()
        invariant
            i <= members.len(),
            model == members.deep_view(),
            set@ == start.union(model.take(i as int).to_set()),
        decreases members.len() - i,
    {
        let ghost before = model.take(i as int);
        let ghost after = model.take(i + 1);
        assert(after =~= before.push(model[i as int]));
        assert(model[i as int] == members@[i as int]@);
        set.insert(members[i].clone());
        assert(set@ =~= start.union(after.to_set())) by {
            assert forall|x: Seq<char>| after.contains(x) == (before.contains(x) || x
                == model[i as int]) by {
                if before.contains(x) {
                    assert(after[before.index_of(x)] == x);
                }
                if x == model[i as int] {
                    assert(after[i as int] == x);
                }
                if after.contains(x) {
                    let k = after.index_of(x);
                    assert(k < i ==> before[k] == x);
                }
            }
        }
        i += 1;
    }
    assert(model.take(model.len() as int) =~= model);
}

proof fn failures_are_some(traces: Seq<TraceModel>)
    ensures
        failing(traces).len() <= traces.len(),
    decreases traces.len(),
{
    if traces.len() > 0 {
        failures_are_some(traces.drop_last());
    }
}

/// Replays a corpus of trace files.
pub fn replay_paths(files: &Vec<TraceFile>) -> (r: ReplaySummary)
    ensures
        summarizes(r, files.deep_view()),
{
    let mut traces: Vec<Trace> = Vec::new();
    let mut i: usize = 0;
    while i < files.len()
        invariant
            i <= files.len(),
            traces.len() == i,
            forall|k: int|
                0 <= k < i ==> (#[trigger] traces@[k]).deep_view() == files@[k].deep_view(),
        decreases files.len() - i,
    {
        let file = &files[i];
        let document = match &file.contents {
            Ok(bytes) => parse_document(bytes.as_slice()),
            Err(e) => Err(e.clone()),
        };
        traces.push(Trace { name: file.name.clone(), document });
        i += 1;
    }
    assert(traces.deep_view() =~= files.deep_view());
    replay_traces(&traces)
}

/// Replays a corpus of traces.
pub fn replay_traces(traces: &Vec<Trace>) -> (r: ReplaySummary)
    ensures
        summarizes(r, traces.deep_view()),
{
    let ghost model = traces.deep_view();
    let mut passed: u64 = 0;
    let mut states: usize = 0;
    let mut busy: usize = 0;
    let mut actions = IdSet::new();
    let mut mismatches: Vec<ReplayMismatch> = Vec::new();
    let mut i: usize = 0;
    assert(actions@ =~= all_actions(model.take(0)));
    while i < traces.len()
        invariant
            i <= traces.len(),
            model == traces.deep_view(),
            passed == i - failing(model.take(i as int)).len(),
            states == capped(total_states(model.take(i as int))),
            busy == capped(total_busy(model.take(i as int))),
            actions@ == all_actions(model.take(i as int)),
            mismatches.len() == failing(model.take(i as int)).len(),
            forall|k: int|
                0 <= k < mismatches.len() ==> explains_file(
                    (#[trigger] mismatches@[k]).deep_view(),
                    failing(model.take(i as int))[k],
                ),
        decreases traces.len() - i,
    {
        let ghost next = model.take(i + 1);
        assert(next.drop_last() =~= model.take(i as int));
        assert(next.last() == traces@[i as int].deep_view());
        proof {
            failures_are_some(model.take(i as int));
        }
        let file = &traces[i];
        let outcome = match &file.document {
            Ok(d) => replay_trace(file.name.as_str(), d),
            Err(e) => Err(mismatch(file.name.as_str(), None, None, e.clone())),
        };
        match outcome {
            Ok(t) => {
                passed += 1;
                states = states.saturating_add(t.states);
                busy = busy.saturating_add(t.non_idle_transitions);
                take_all(&mut actions, &t.actions);
            },
            Err(e) => {
                mismatches.push(e);
            },
        }
        i += 1;
    }
    assert(model.take(model.len() as int) =~= model);
    proof {
        failures_are_some(model);
    }
    let total: u64 = traces.len() as u64;
    let required_list = required_actions();
    let missing = missing_texts(&required_list, &actions);
    let ghost gap = model.len() > 0 && missing_from(required(), all_actions(model)).len() > 0;
    if missing.len() > 0 && traces.len() > 0 {
        if passed == total {
            passed -= 1;
        }
        let mut message = "trace corpus left production scheduler branches untested: ".to_owned();
        append_joined(&mut message, &missing);
        let covered = actions.listed();
        let gap_mismatch = ReplayMismatch {
            trace: traces[0].name.clone(),
            step: None,
            action: Some(missing[0].clone()),
            message,
            expected: texts_json(&required_list),
            actual: texts_json(&covered),
        };
        assert(reports_gap(gap_mismatch.deep_view(), model, all_actions(model))) by {
            assert(texts_ascend(covered.deep_view()));
            assert(model[0] == traces@[0].deep_view());
            assert(missing.deep_view()[0] == missing@[0]@);
        }
        mismatches.push(gap_mismatch);
    }
    ReplaySummary {
        traces_total: total,
        traces_passed: passed,
        states,
        non_idle_transitions: busy,
        actions,
        mismatches,
    }
}

proof fn nothing_fails(traces: Seq<TraceModel>)
    ensures
        failing(traces).len() == 0 <==> forall|i: int|
            0 <= i < traces.len() ==> passes(#[trigger] traces[i]),
    decreases traces.len(),
{
    if traces.len() > 0 {
        let rest = traces.drop_last();
        nothing_fails(rest);
        if forall|i: int| 0 <= i < traces.len() ==> passes(#[trigger] traces[i]) {
            assert forall|i: int| 0 <= i < rest.len() implies passes(#[trigger] rest[i]) by {
                assert(rest[i] == traces[i]);
            }
            assert(passes(traces[traces.len() - 1]));
        }
        if failing(traces).len() == 0 {
            assert forall|i: int| 0 <= i < traces.len() implies passes(#[trigger] traces[i]) by {
                if i < rest.len() {
                    assert(rest[i] == traces[i]);
                }
            }
        }
    }
}

proof fn nothing_is_missing(list: Seq<Seq<char>>, set: Set<Seq<char>>)
    ensures
        missing_from(list, set).len() == 0 <==> forall|i: int|
            0 <= i < list.len() ==> set.contains(#[trigger] list[i]),
    decreases list.len(),
{
    if list.len() > 0 {
        let rest = list.drop_last();
        nothing_is_missing(rest, set);
        if forall|i: int| 0 <= i < list.len() ==> set.contains(#[trigger] list[i]) {
            assert forall|i: int| 0 <= i < rest.len() implies set.contains(#[trigger] rest[i]) by {
                assert(rest[i] == list[i]);
            }
            assert(set.contains(list[list.len() - 1]));
        }
        if missing_from(list, set).len() == 0 {
            assert forall|i: int| 0 <= i < list.len() implies set.contains(#[trigger] list[i]) by {
                if i < rest.len() {
                    assert(rest[i] == list[i]);
                }
            }
        }
    }
}

/// A replay succeeds exactly where there are traces, the cluster follows every one of them, and
/// together they cover every required action.
pub proof fn success_is_conformance_and_coverage(r: ReplaySummary, traces: Seq<TraceModel>)
    requires
        summarizes(r, traces),
    ensures
        succeeds(r) <==> {
            &&& traces.len() > 0
            &&& forall|i: int| 0 <= i < traces.len() ==> passes(#[trigger] traces[i])
            &&& forall|i: int|
                0 <= i < required().len() ==> all_actions(traces).contains(
                    #[trigger] required()[i],
                )
        },
{
    nothing_fails(traces);
    nothing_is_missing(required(), all_actions(traces));
    failures_are_some(traces);
}

/// Whether a text ends with another.
pub open spec fn ends_with(s: Seq<char>, suffix: Seq<char>) -> bool {
    s.len() >= suffix.len() && s.skip(s.len() - suffix.len()) == suffix
}

fn has_suffix(s: &str, suffix: &str) -> (r: bool)
    ensures
        r == ends_with(s@, suffix@),
{
    let a = to_chars(s);
    let b = to_chars(suffix);
    if a.len() < b.len() {
        return false;
    }
    let d: usize = a.len() - b.len();
    let mut i: usize = 0;
    while i < b.len()
        invariant
            i <= b.len(),
            d + b.len() == a.len(),
            a@ == s@,
            b@ == suffix@,
            forall|k: int| 0 <= k < i ==> a@[d + k] == b@[k],
        decreases b.len() - i,
    {
        if a[d + i] != b[i] {
            assert(s@.skip(d as int)[i as int] == a@[d + i]);
            return false;
        }
        i += 1;
    }
    assert(s@.skip(d as int) =~= suffix@);
    true
}

/// Whether a path names a trace file.
pub open spec fn names_trace(path: Seq<Seq<char>>) -> bool {
    path.len() > 0 && ends_with(path.last(), ".itf.json"@)
}

/// Whether one path sorts before another: component by component, a shorter one first.
pub open spec fn path_lt(a: Seq<Seq<char>>, b: Seq<Seq<char>>) -> bool
    decreases a.len(),
{
    if b.len() == 0 {
        false
    } else if a.len() == 0 {
        true
    } else if text::text_lt(a[0], b[0]) {
        true
    } else if a[0] == b[0] {
        path_lt(a.drop_first(), b.drop_first())
    } else {
        false
    }
}

proof fn path_lt_transitive(a: Seq<Seq<char>>, b: Seq<Seq<char>>, c: Seq<Seq<char>>)
    requires
        path_lt(a, b),
        path_lt(b, c),
    ensures
        path_lt(a, c),
    decreases a.len(),
{
    if a.len() > 0 {
        if text::text_lt(a[0], b[0]) {
            if text::text_lt(b[0], c[0]) {
                text::text_lt_transitive(a[0], b[0], c[0]);
            }
        } else if a[0] == b[0] && b[0] == c[0] {
            path_lt_transitive(a.drop_first(), b.drop_first(), c.drop_first());
        }
    }
}

proof fn path_lt_total(a: Seq<Seq<char>>, b: Seq<Seq<char>>)
    ensures
        path_lt(a, b) || path_lt(b, a) || a == b,
    decreases a.len(),
{
    if a.len() > 0 && b.len() > 0 {
        text::text_lt_total(a[0], b[0]);
        if a[0] == b[0] {
            path_lt_total(a.drop_first(), b.drop_first());
            if a.drop_first() == b.drop_first() {
                assert(a =~= seq![a[0]] + a.drop_first());
                assert(b =~= seq![b[0]] + b.drop_first());
            }
        }
    } else if a.len() == 0 && b.len() == 0 {
        assert(a =~= b);
    }
}

fn path_before(a: &Vec<String>, b: &Vec<String>) -> (r: bool)
    ensures
        r == path_lt(a.deep_view(), b.deep_view()),
{
    let ghost x = a.deep_view();
    let ghost y = b.deep_view();
    let mut i: usize = 0;
    assert(x.skip(0) =~= x);
    assert(y.skip(0) =~= y);
    while i < a.len() && i < b.len()
        invariant
            i <= a.len(),
            i <= b.len(),
            x == a.deep_view(),
            y == b.deep_view(),
            path_lt(x, y) == path_lt(x.skip(i as int), y.skip(i as int)),
        decreases a.len() - i,
    {
        assert(x.skip(i as int)[0] == a@[i as int]@);
        assert(y.skip(i as int)[0] == b@[i as int]@);
        assert(x.skip(i as int).drop_first() =~= x.skip(i + 1));
        assert(y.skip(i as int).drop_first() =~= y.skip(i + 1));
        if text_before(a[i].as_str(), b[i].as_str()) {
            return true;
        }
        if !text_eq(a[i].as_str(), b[i].as_str()) {
            return false;
        }
        i += 1;
    }
    i < b.len()
}

/// The trace files among paths, in order.
pub open spec fn trace_paths(files: Seq<Seq<Seq<char>>>) -> Seq<Seq<Seq<char>>>
    decreases files.len(),
{
    if files.len() == 0 {
        Seq::empty()
    } else {
        let before = trace_paths(files.drop_last());
        if names_trace(files.last()) {
            before.push(files.last())
        } else {
            before
        }
    }
}

/// Whether no path sorts before an earlier one.
pub open spec fn paths_sorted(paths: Seq<Seq<Seq<char>>>) -> bool {
    forall|i: int, j: int|
        0 <= i < j < paths.len() ==> !path_lt(#[trigger] paths[j], #[trigger] paths[i])
}

/// Puts a path in its place among sorted ones.
fn insert_path(sorted: &mut Vec<Vec<String>>, path: Vec<String>)
    requires
        paths_sorted(old(sorted).deep_view()),
    ensures
        paths_sorted(final(sorted).deep_view()),
        final(sorted).deep_view().to_multiset() == old(sorted).deep_view().to_multiset().insert(
            path.deep_view(),
        ),
{
    let ghost was = sorted.deep_view();
    let ghost p = path.deep_view();
    let mut i: usize = sorted.len();
    while i > 0 && path_before(&path, &sorted[i - 1])
        invariant
            i <= sorted.len(),
            was == sorted.deep_view(),
            p == path.deep_view(),
            forall|k: int| i <= k < was.len() ==> path_lt(p, #[trigger] was[k]),
        decreases i,
    {
        i -= 1;
        assert(was[i as int] == sorted@[i as int].deep_view());
    }
    assert(i > 0 ==> was[i - 1] == sorted@[i - 1].deep_view());
    sorted.insert(i, path);
    let ghost now = sorted.deep_view();
    assert(now =~= was.insert(i as int, p));
    proof {
        vstd::seq_lib::to_multiset_insert(was, i as int, p);
        assert forall|a: int, b: int| 0 <= a < b < now.len() implies !path_lt(
            #[trigger] now[b],
            #[trigger] now[a],
        ) by {
            if a < i && b == i {
                if path_lt(p, was[a]) {
                    if a < i - 1 {
                        path_lt_total(was[a], was[i - 1]);
                        if path_lt(was[a], was[i - 1]) {
                            path_lt_transitive(p, was[a], was[i - 1]);
                        }
                    }
                }
            } else if a == i && b > i {
                if path_lt(was[b - 1], p) {
                    path_lt_transitive(p, was[b - 1], p);
                    path_lt_irreflexive(p);
                }
            }
        }
    }
}

proof fn path_lt_irreflexive(a: Seq<Seq<char>>)
    ensures
        !path_lt(a, a),
    decreases a.len(),
{
    if a.len() > 0 {
        text::text_lt_irreflexive(a[0]);
        path_lt_irreflexive(a.drop_first());
    }
}

/// The trace files among the paths of a directory tree, sorted.
pub fn collect_itf_traces(files: &Vec<Vec<String>>) -> (r: Vec<Vec<String>>)
    ensures
        paths_sorted(r.deep_view()),
        r.deep_view().to_multiset() == trace_paths(files.deep_view()).to_multiset(),
{
    let ghost model = files.deep_view();
    let mut r: Vec<Vec<String>> = Vec::new();
    let mut i: usize = 0;
    assert(r.deep_view() =~= trace_paths(model.take(0)));
    while i < files.len()
        invariant
            i <= files.len(),
            model == files.deep_view(),
            paths_sorted(r.deep_view()),
            r.deep_view().to_multiset() == trace_paths(model.take(i as int)).to_multiset(),
        decreases files.len() - i,
    {
        let path = &files[i];
        let ghost before = trace_paths(model.take(i as int));
        assert(model.take(i + 1).drop_last() =~= model.take(i as int));
        assert(model.take(i + 1).last() == path.deep_view());
        if path.len() > 0 && has_suffix(path[path.len() - 1].as_str(), ".itf.json") {
            proof {
                before.to_multiset_ensures();
            }
            insert_path(&mut r, copy_texts(path));
        }
        i += 1;
    }
    assert(model.take(model.len() as int) =~= model);
    r
}

/// The protocol that replays are requested in.
pub const ADAPTER_PROTOCOL: &'static str = "fmctl.adapter.v1";

/// A request to replay traces.
#[derive(Debug)]
pub struct ReplayRequest {
    pub protocol: String,
    pub project: String,
    pub model: String,
    pub adapter: String,
    pub specification: String,
    /// Whether the specification is a file.
    pub specification_is_file: bool,
    /// The traces, and whether each is a file.
    pub traces: Vec<(String, bool)>,
}

/// The first path that is no file.
pub open spec fn first_absent(traces: Seq<(String, bool)>) -> Option<Seq<char>>
    decreases traces.len(),
{
    if traces.len() == 0 {
        None
    } else if !traces[0].1 {
        Some(traces[0].0@)
    } else {
        first_absent(traces.drop_first())
    }
}

/// Why a request is refused.
pub open spec fn request_fault(q: ReplayRequest) -> Option<Seq<char>> {
    if q.protocol@ != ADAPTER_PROTOCOL@ {
        Some("unsupported adapter protocol "@ + harness::quoted(q.protocol@))
    } else if q.adapter@ != "rust"@ {
        Some("request selected a non-Rust adapter"@)
    } else if q.project@ != "fiducia-brain.rs"@ {
        Some("unexpected project "@ + harness::quoted(q.project@))
    } else if q.model@ != "brain-scheduler"@ {
        Some("unexpected model "@ + harness::quoted(q.model@))
    } else if !q.specification_is_file {
        Some("request specification is not a file: "@ + q.specification@)
    } else if q.traces@.len() == 0 {
        Some("request contains no traces"@)
    } else {
        match first_absent(q.traces@) {
            Some(t) => Some("request trace is not a file: "@ + t),
            None => None,
        }
    }
}

fn said_of(prefix: &str, t: &str) -> (r: String)
    ensures
        r@ == prefix@ + t@,
{
    let mut r = prefix.to_owned();
    append_text(&mut r, t);
    r
}

/// Checks a request before anything is replayed.
pub fn check_request(q: &ReplayRequest) -> (r: Result<(), String>)
    ensures
        match r {
            Ok(_) => request_fault(*q) is None,
            Err(e) => request_fault(*q) == Some(e@),
        },
{
    if !text_eq(q.protocol.as_str(), ADAPTER_PROTOCOL) {
        let shown = quote(q.protocol.as_str());
        return Err(said_of("unsupported adapter protocol ", shown.as_str()));
    }
    if !text_eq(q.adapter.as_str(), "rust") {
        return Err("request selected a non-Rust adapter".to_owned());
    }
    if !text_eq(q.project.as_str(), "fiducia-brain.rs") {
        let shown = quote(q.project.as_str());
        return Err(said_of("unexpected project ", shown.as_str()));
    }
    if !text_eq(q.model.as_str(), "brain-scheduler") {
        let shown = quote(q.model.as_str());
        return Err(said_of("unexpected model ", shown.as_str()));
    }
    if !q.specification_is_file {
        return Err(
            said_of("request specification is not a file: ", q.specification.as_str()),
        );
    }
    if q.traces.is_empty() {
        return Err("request contains no traces".to_owned());
    }
    let ghost all = q.traces@;
    let mut i: usize = 0;
    assert(all.skip(0) =~= all);
    while i < q.traces.len()
        invariant
            i <= q.traces.len(),
            all == q.traces@,
            first_absent(all) == first_absent(all.skip(i as int)),
            all.len() > 0,
            q.specification_is_file,
            q.protocol@ == ADAPTER_PROTOCOL@,
            q.adapter@ == "rust"@,
            q.project@ == "fiducia-brain.rs"@,
            q.model@ == "brain-scheduler"@,
        decreases q.traces.len() - i,
    {
        assert(all.skip(i as int)[0] == all[i as int]);
        assert(all.skip(i as int).drop_first() =~= all.skip(i + 1));
        if !q.traces[i].1 {
            return Err(said_of("request trace is not a file: ", q.traces[i].0.as_str()));
        }
        i += 1;
    }
    Ok(())
}

} // verus!
