//! Resuming a run: which runs can go on, with which settings, and what is given
//! back of reservations that were too large.

use vstd::prelude::*;

use crate::budget::capped;
use crate::code_graph::{is_one_of, one_of};
use crate::config::{settings_fault, validate, Observed, SettingsFault};
use crate::json::{lemma_arr, lemma_obj, nat_model, put, put_member, Json, JsonModel, Member};
use crate::llm::exchange::{as_natural, natural_of, or_else, step, step_model};
use crate::model::{LlmConfig, RunSnapshot, Settings, TaskConfig};
use crate::text::{contains, has, number, same};

verus! {

/// What a resumed run takes from the present.
#[derive(Clone, Copy, Debug, PartialEq, Eq, Structural)]
pub struct ResumeOptions {
    pub current_llm: bool,
    pub current_token_limit: bool,
    pub current_review_limit: bool,
}

impl Default for ResumeOptions {
    fn default() -> (r: Self)
        ensures
            r == (ResumeOptions {
                current_llm: false,
                current_token_limit: false,
                current_review_limit: false,
            }),
    {
        ResumeOptions { current_llm: false, current_token_limit: false, current_review_limit: false }
    }
}

/// Why a run is not resumed.
#[derive(Clone, Copy, Debug, PartialEq, Eq, Structural)]
pub enum ResumeFault {
    /// It has not stopped, or it is complete.
    NotStopped,
    /// The settings that it would run with are not valid.
    Settings(SettingsFault),
    /// The task whose limits it would take is gone.
    NoTask,
    /// It was reviewed to its limit, and the limit is not raised.
    ReviewLimit,
}

/// The statuses of runs that stopped.
pub open spec fn stopped_statuses() -> Seq<&'static str> {
    seq!["failed", "cancelled", "interrupted", "awaiting_source", "awaiting_outline"]
}

/// The status of a run that is complete but for warnings.
pub open spec fn warned(status: Seq<char>) -> bool {
    status == "completed_with_warnings"@
}

/// A run whose document is only a part.
pub open spec fn partial(status: Seq<char>, progress: Seq<char>) -> bool {
    warned(status) && contains(progress, "this document is incomplete"@)
}

/// A run can be resumed.
pub open spec fn resumable(status: Seq<char>) -> bool {
    warned(status) || one_of(status, stopped_statuses())
}

/// Whether a run can be resumed.
pub fn can_resume(status: &str) -> (r: bool)
    ensures
        r == resumable(status@),
{
    let stopped = ["failed", "cancelled", "interrupted", "awaiting_source", "awaiting_outline"];
    assert(stopped@ =~= stopped_statuses());
    same(status, "completed_with_warnings") || is_one_of(status, stopped.as_slice())
}

/// The model's settings of a resumed run: those of the present, or its own with
/// the present credentials.
pub open spec fn resumed_llm(own: LlmConfig, present: LlmConfig, o: ResumeOptions) -> LlmConfig {
    if o.current_llm {
        present
    } else {
        LlmConfig {
            api_key: present.api_key,
            proxy_password: present.proxy_password,
            ..own
        }
    }
}

/// The settings of a resumed run.
pub open spec fn resumed_settings(own: Settings, present: LlmConfig, o: ResumeOptions) -> Settings {
    Settings { llm: resumed_llm(own.llm, present, o), ..own }
}

/// Why a run is not resumed.
pub open spec fn resume_fault(
    snapshot: RunSnapshot,
    status: Seq<char>,
    progress: Seq<char>,
    o: ResumeOptions,
    present: LlmConfig,
    task: Option<TaskConfig>,
    observed: Observed,
) -> Option<ResumeFault> {
    let settings = resumed_settings(snapshot.settings, present, o);
    let limit = if o.current_review_limit && task is Some {
        task->0.max_iterations
    } else {
        snapshot.task.max_iterations
    };
    if !resumable(status) {
        Some(ResumeFault::NotStopped)
    } else if o.current_llm && settings_fault(settings, observed) is Some {
        Some(ResumeFault::Settings(settings_fault(settings, observed)->0))
    } else if (o.current_token_limit || o.current_review_limit) && task is None {
        Some(ResumeFault::NoTask)
    } else if warned(status) && !partial(status, progress) && (!o.current_review_limit || limit
        <= snapshot.task.max_iterations) {
        Some(ResumeFault::ReviewLimit)
    } else {
        None
    }
}

/// What a run is resumed with: its own task and settings, but for the model's
/// settings or credentials, the limits that it takes from the task, and the hash
/// of what it published.
pub open spec fn resumed(
    snapshot: RunSnapshot,
    status: Seq<char>,
    o: ResumeOptions,
    present: LlmConfig,
    task: Option<TaskConfig>,
    published: Option<String>,
) -> RunSnapshot {
    RunSnapshot {
        settings: resumed_settings(snapshot.settings, present, o),
        task: TaskConfig {
            max_tokens: if o.current_token_limit {
                task->0.max_tokens
            } else {
                snapshot.task.max_tokens
            },
            max_iterations: if o.current_review_limit {
                task->0.max_iterations
            } else {
                snapshot.task.max_iterations
            },
            ..snapshot.task
        },
        original_hash: if warned(status) && published is Some {
            published
        } else {
            snapshot.original_hash
        },
    }
}

/// Prepares a run to be resumed. Credentials may have been repaired; analysis
/// settings and sources stay as they were, unless the present ones are asked
/// for.
pub fn resume_run(
    snapshot: RunSnapshot,
    status: &str,
    progress: &str,
    o: &ResumeOptions,
    present: &LlmConfig,
    task: Option<&TaskConfig>,
    published: Option<String>,
    observed: &Observed,
) -> (r: Result<RunSnapshot, ResumeFault>)
    ensures
        ({
            let t = match task {
                Some(t) => Some(*t),
                None => None,
            };
            match resume_fault(snapshot, status@, progress@, *o, *present, t, *observed) {
                Some(f) => r == Err::<RunSnapshot, ResumeFault>(f),
                None => r == Ok::<RunSnapshot, ResumeFault>(
                    resumed(snapshot, status@, *o, *present, t, published),
                ),
            }
        }),
{
    if !can_resume(status) {
        return Err(ResumeFault::NotStopped);
    }
    let warned = same(status, "completed_with_warnings");
    let partial = warned && has(progress, "this document is incomplete");
    let previous: u32 = snapshot.task.max_iterations;
    let mut next = snapshot;
    if warned && published.is_some() {
        next.original_hash = published;
    }
    if o.current_llm {
        next.settings.llm = present.clone();
        if let Err(f) = validate(&next.settings, observed) {
            return Err(ResumeFault::Settings(f));
        }
    } else {
        next.settings.llm.api_key = present.api_key.clone();
        next.settings.llm.proxy_password = present.proxy_password.clone();
    }
    if o.current_token_limit || o.current_review_limit {
        match task {
            Some(t) => {
                if o.current_token_limit {
                    next.task.max_tokens = t.max_tokens;
                }
                if o.current_review_limit {
                    next.task.max_iterations = t.max_iterations;
                }
            },
            None => {
                return Err(ResumeFault::NoTask);
            },
        }
    }
    if warned && !partial && (!o.current_review_limit || next.task.max_iterations <= previous) {
        return Err(ResumeFault::ReviewLimit);
    }
    Ok(next)
}

/// A resumed run keeps its sources, its target and its own limits, but for those
/// that it was asked to take.
pub proof fn resuming_keeps_the_task(
    snapshot: RunSnapshot,
    status: Seq<char>,
    o: ResumeOptions,
    present: LlmConfig,
    task: Option<TaskConfig>,
    published: Option<String>,
)
    ensures
        ({
            let r = resumed(snapshot, status, o, present, task, published);
            &&& r.task.sources == snapshot.task.sources
            &&& r.task.target == snapshot.task.target
            &&& r.task.max_seconds == snapshot.task.max_seconds
            &&& !o.current_token_limit ==> r.task.max_tokens == snapshot.task.max_tokens
            &&& !o.current_review_limit ==> r.task.max_iterations == snapshot.task.max_iterations
            &&& r.settings.db == snapshot.settings.db
        }),
{
}

// ---------------------------------------------------------------------------
// Reservations
// ---------------------------------------------------------------------------

/// An event of a run that concerns its tokens.
pub struct TokenEvent {
    /// A request was sent; otherwise a response came.
    pub request: bool,
    pub data: Json,
}

/// The value of an event.
pub struct TokenEventModel {
    pub request: bool,
    pub data: JsonModel,
}

impl View for TokenEvent {
    type V = TokenEventModel;

    open spec fn view(&self) -> TokenEventModel {
        TokenEventModel { request: self.request, data: self.data@ }
    }
}

/// The values of some events.
pub open spec fn event_models(v: Seq<TokenEvent>) -> Seq<TokenEventModel> {
    v.map_values(|e: TokenEvent| e@)
}

/// The tokens that a request reserved.
pub open spec fn reserved_by(data: JsonModel) -> nat {
    let budget = step_model(Some(data), "budget"@);
    capped(
        (or_else(natural_of(step_model(budget, "input"@)), 0) + or_else(
            natural_of(step_model(budget, "output"@)),
            0,
        )) as nat,
    )
}

/// The tokens that a response reports, where they are confirmed and nothing was
/// given back for them.
pub open spec fn confirmed(data: JsonModel) -> Option<nat> {
    let input = natural_of(data.get("input_tokens"@));
    let output = natural_of(data.get("output_tokens"@));
    if data.get("reservation_released"@) is None && data.get("usage_estimated"@) == Some(
        JsonModel::Bool(false),
    ) && input is Some && output is Some {
        Some(capped((input->0 + output->0) as nat))
    } else {
        None
    }
}

/// What the first `count` events leave: the tokens that a request still holds,
/// and those that are given back.
pub open spec fn released(events: Seq<TokenEventModel>, count: nat) -> (nat, nat)
    decreases count,
{
    if count == 0 {
        (0, 0)
    } else {
        let (pending, given) = released(events, (count - 1) as nat);
        let e = events[count - 1];
        if e.request {
            (reserved_by(e.data), given)
        } else {
            (
                0,
                match confirmed(e.data) {
                    Some(used) => capped(
                        given + if pending < used {
                            0
                        } else {
                            (pending - used) as nat
                        },
                    ),
                    None => given,
                },
            )
        }
    }
}

/// The tokens that a response reports, where they are confirmed.
fn find_confirmed(data: &Json) -> (r: Option<u64>)
    ensures
        match confirmed(data@) {
            Some(n) => r is Some && r->0 == n,
            None => r is None,
        },
{
    let input = as_natural(data.get("input_tokens"));
    let output = as_natural(data.get("output_tokens"));
    let exact = match data.get("usage_estimated") {
        Some(Json::Bool(b)) => !*b,
        Some(Json::Arr(items)) => {
            proof {
                lemma_arr(*items);
            }
            false
        },
        Some(Json::Obj(members)) => {
            proof {
                lemma_obj(*members);
            }
            false
        },
        _ => false,
    };
    if data.get("reservation_released").is_some() || !exact {
        return None;
    }
    match (input, output) {
        (Some(a), Some(b)) => Some(a.saturating_add(b)),
        _ => None,
    }
}

/// The tokens that are given back of reservations that were too large. What is
/// not confirmed stays charged.
pub fn released_tokens(events: &Vec<TokenEvent>) -> (r: u64)
    ensures
        r == released(event_models(events@), events@.len()).1,
{
    let ghost es = event_models(events@);
    let mut pending: u64 = 0;
    let mut given: u64 = 0;
    let mut i: usize = 0;
    while i < events.len()
        invariant
            i <= events@.len(),
            es == event_models(events@),
            released(es, i as nat) == (pending as nat, given as nat),
        decreases events@.len() - i,
    {
        let e = &events[i];
        assert(es[i as int] == e@);
        if e.request {
            let budget = step(Some(&e.data), "budget");
            let input: u64 = match as_natural(step(budget, "input")) {
                Some(n) => n,
                None => 0,
            };
            let output: u64 = match as_natural(step(budget, "output")) {
                Some(n) => n,
                None => 0,
            };
            pending = input.saturating_add(output);
        } else {
            if let Some(used) = find_confirmed(&e.data) {
                given = given.saturating_add(pending.saturating_sub(used));
            }
            pending = 0;
        }
        i += 1;
    }
    given
}

/// A budget of which some tokens are given back.
pub open spec fn budget_after(budget: JsonModel, given: u64) -> Option<JsonModel> {
    let tokens = or_else(natural_of(budget.get("tokens"@)), 0);
    match budget {
        JsonModel::Obj(members) => Some(
            JsonModel::Obj(
                put_member(
                    members,
                    "tokens"@,
                    nat_model(
                        if tokens < given {
                            0
                        } else {
                            (tokens - given) as nat
                        },
                    ),
                ),
            ),
        ),
        _ => None,
    }
}

/// Gives tokens back to a budget. `None` where what was stored is no budget.
pub fn reconciled_budget(budget: &Json, given: u64) -> (r: Option<Json>)
    ensures
        match budget_after(budget@, given) {
            Some(m) => r is Some && r->0@ == m,
            None => r is None,
        },
{
    let tokens: u64 = match as_natural(budget.get("tokens")) {
        Some(n) => n,
        None => 0,
    };
    match budget {
        Json::Obj(own) => {
            proof {
                lemma_obj(*own);
            }
            let mut members: Vec<Member> = match budget.copy() {
                Json::Obj(m) => m,
                _ => Vec::new(),
            };
            proof {
                lemma_obj(members);
            }
            put(&mut members, "tokens", Json::Num(number(tokens.saturating_sub(given))));
            Some(Json::object(members))
        },
        Json::Arr(items) => {
            proof {
                lemma_arr(*items);
            }
            None
        },
        _ => None,
    }
}

} // verus!
