//! Making sure the local Ollama server runs and has the translation model: what its model
//! list says, and the steps of the check (start the server, wait for it, pull the model).
use vstd::prelude::*;

use crate::epub::somes;
use crate::load::string_views;
use crate::translate::{model_listed, model_matches};

verus! {

// ---------------------------------------------------------------------------
// The model list (`/api/tags`)
// ---------------------------------------------------------------------------

/// What `serde_json` reads of an `/api/tags` answer: `None` when it is not JSON,
/// `Some(None)` when its `models` field is not an array, else, for each entry of `models`
/// in order, its `name` field when that is a string.
pub uninterp spec fn tags_entries(body: Seq<char>) -> Option<Option<Seq<Option<Seq<char>>>>>;

pub open spec fn entries_view(r: Result<Option<Vec<Option<String>>>, String>) -> Option<
    Option<Seq<Option<Seq<char>>>>,
> {
    match r {
        Err(_) => None,
        Ok(None) => Some(None),
        Ok(Some(v)) => Some(Some(v@.map_values(|n: Option<String>| match n {
            Some(s) => Some(s@),
            None => None,
        }))),
    }
}

/// `serde_json::from_str` of the answer as a `serde_json::Value` (its error taken as its
/// message), then `Value::as_array` of its `models` field, then `Value::as_str` of each
/// entry's `name` field. The result is named by `tags_entries`; what the parser makes of a
/// text is not stated.
#[verifier::external_body]
fn read_tags(body: &str) -> (r: Result<Option<Vec<Option<String>>>, String>)
    ensures
        entries_view(r) == tags_entries(body@),
{
    let value: serde_json::Value = match serde_json::from_str(body) {
        Ok(v) => v,
        Err(e) => return Err(e.to_string()),
    };
    let models = match value["models"].as_array() {
        Some(m) => m,
        None => return Ok(None),
    };
    Ok(Some(models.iter().map(|m| m["name"].as_str().map(str::to_owned)).collect()))
}

/// Why the model list could not be read.
pub enum TagsError {
    /// The answer is not JSON: `serde_json`'s message.
    NotJson(String),
    /// Its `models` field is not a list.
    NoModelList,
}

/// The names of the models that an `/api/tags` answer lists: the entries whose `name` is a
/// string, in order.
pub fn model_names(body: &str) -> (r: Result<Vec<String>, TagsError>)
    ensures
        match tags_entries(body@) {
            None => r matches Err(TagsError::NotJson(_)),
            Some(None) => r matches Err(TagsError::NoModelList),
            Some(Some(es)) => r matches Ok(v) && string_views(v@) == somes(es),
        },
{
    let entries = match read_tags(body) {
        Err(message) => {
            return Err(TagsError::NotJson(message));
        },
        Ok(None) => {
            return Err(TagsError::NoModelList);
        },
        Ok(Some(es)) => es,
    };
    let ghost ev = entries@.map_values(|n: Option<String>| match n {
        Some(s) => Some(s@),
        None => None,
    });
    let mut names: Vec<String> = Vec::new();
    let mut i: usize = 0;
    while i < entries.len()
        invariant
            i <= entries.len(),
            ev == entries@.map_values(|n: Option<String>| match n {
                Some(s) => Some(s@),
                None => None,
            }),
            string_views(names@) == somes(ev.take(i as int)),
        decreases entries.len() - i,
    {
        assert(ev.take(i + 1).drop_last() =~= ev.take(i as int));
        let ghost before = string_views(names@);
        match &entries[i] {
            Some(n) => {
                names.push(n.clone());
                assert(string_views(names@) =~= before + seq![n@]);
            },
            None => {},
        }
        i = i + 1;
    }
    assert(ev.take(entries.len() as int) =~= ev);
    Ok(names)
}

/// Whether a list of model names holds the translation model (any tag of it).
pub open spec fn lists_model(names: Seq<Seq<char>>) -> bool {
    exists|i: int| 0 <= i < names.len() && model_matches(#[trigger] names[i])
}

// ---------------------------------------------------------------------------
// The steps of the check
// ---------------------------------------------------------------------------

/// How many times the check waits half a second for a started server to answer.
pub const START_POLLS: u32 = 20;

/// Why the check failed.
pub enum PreflightError {
    /// Ollama does not answer and starting it was declined.
    NotReachable,
    /// `ollama serve` could not be started.
    StartFailed,
    /// The started server did not answer in time.
    NotStarted,
    /// The model list could not be fetched.
    ModelsUnavailable,
    /// The model list could not be read.
    Tags(TagsError),
    /// The translation model is missing and pulling it was declined.
    ModelMissing,
    /// `ollama pull` could not be run.
    PullNotRun,
    /// `ollama pull` failed.
    PullFailed,
}

/// What the check does next.
pub enum PreflightStep {
    /// Check whether Ollama answers.
    Probe,
    /// Ask whether to start Ollama.
    ConfirmStart,
    /// Start `ollama serve`.
    StartServer,
    /// Wait half a second, then check whether the started server answers; `polls` such
    /// waits were made before.
    WaitThenProbe { polls: u32 },
    /// Check once more whether the started server answers.
    ProbeStarted,
    /// Fetch the model list.
    FetchModels,
    /// Show the models that are there (when there are any): the translation model is not
    /// among them.
    ShowModels { available: Vec<String> },
    /// Ask whether to pull the translation model.
    ConfirmPull,
    /// Pull the translation model.
    Pull,
    /// Ollama runs and has the translation model.
    Done,
    Failed(PreflightError),
}

/// What came of a step.
pub enum PreflightEvent {
    /// Whether Ollama answered.
    Reachable(bool),
    /// The answer to a question.
    Confirmed(bool),
    /// Whether `ollama serve` could be started.
    Started(bool),
    /// The `/api/tags` answer, or `None` when it could not be fetched.
    Models(Option<String>),
    /// The models were shown.
    Shown,
    /// `None` when `ollama pull` could not be run, else whether it succeeded.
    Pulled(Option<bool>),
}

/// The next step of the check after `step` came to `event`; with `yes`, questions are
/// taken as answered yes and not asked. An event that does not answer the step leaves it
/// as it is, and so do the last steps (`Done`, `Failed`).
pub fn preflight_next(step: PreflightStep, event: PreflightEvent, yes: bool) -> (r: PreflightStep)
    ensures
        match (step, event) {
            (PreflightStep::Probe, PreflightEvent::Reachable(up)) => if up {
                r is FetchModels
            } else if yes {
                r is StartServer
            } else {
                r is ConfirmStart
            },
            (PreflightStep::ConfirmStart, PreflightEvent::Confirmed(ok)) => if ok {
                r is StartServer
            } else {
                r == PreflightStep::Failed(PreflightError::NotReachable)
            },
            (PreflightStep::StartServer, PreflightEvent::Started(ok)) => if ok {
                r == PreflightStep::WaitThenProbe { polls: 0 }
            } else {
                r == PreflightStep::Failed(PreflightError::StartFailed)
            },
            (PreflightStep::WaitThenProbe { polls }, PreflightEvent::Reachable(up)) => if up
                || polls + 1 >= START_POLLS {
                r is ProbeStarted
            } else {
                r == PreflightStep::WaitThenProbe { polls: (polls + 1) as u32 }
            },
            (PreflightStep::ProbeStarted, PreflightEvent::Reachable(up)) => if up {
                r is FetchModels
            } else {
                r == PreflightStep::Failed(PreflightError::NotStarted)
            },
            (PreflightStep::FetchModels, PreflightEvent::Models(answer)) => match answer {
                None => r == PreflightStep::Failed(PreflightError::ModelsUnavailable),
                Some(body) => match tags_entries(body@) {
                    None => r matches PreflightStep::Failed(
                        PreflightError::Tags(TagsError::NotJson(_)),
                    ),
                    Some(None) => r == PreflightStep::Failed(
                        PreflightError::Tags(TagsError::NoModelList),
                    ),
                    Some(Some(es)) => if lists_model(somes(es)) {
                        r is Done
                    } else {
                        r matches PreflightStep::ShowModels { available } && string_views(
                            available@,
                        ) == somes(es)
                    },
                },
            },
            (PreflightStep::ShowModels { .. }, PreflightEvent::Shown) => if yes {
                r is Pull
            } else {
                r is ConfirmPull
            },
            (PreflightStep::ConfirmPull, PreflightEvent::Confirmed(ok)) => if ok {
                r is Pull
            } else {
                r == PreflightStep::Failed(PreflightError::ModelMissing)
            },
            (PreflightStep::Pull, PreflightEvent::Pulled(outcome)) => match outcome {
                None => r == PreflightStep::Failed(PreflightError::PullNotRun),
                Some(ok) => if ok {
                    r is Done
                } else {
                    r == PreflightStep::Failed(PreflightError::PullFailed)
                },
            },
            _ => r == step,
        },
{
    match (step, event) {
        (PreflightStep::Probe, PreflightEvent::Reachable(up)) => if up {
            PreflightStep::FetchModels
        } else if yes {
            PreflightStep::StartServer
        } else {
            PreflightStep::ConfirmStart
        },
        (PreflightStep::ConfirmStart, PreflightEvent::Confirmed(ok)) => if ok {
            PreflightStep::StartServer
        } else {
            PreflightStep::Failed(PreflightError::NotReachable)
        },
        (PreflightStep::StartServer, PreflightEvent::Started(ok)) => if ok {
            PreflightStep::WaitThenProbe { polls: 0 }
        } else {
            PreflightStep::Failed(PreflightError::StartFailed)
        },
        (PreflightStep::WaitThenProbe { polls }, PreflightEvent::Reachable(up)) => if up || polls
            >= START_POLLS - 1 {
            PreflightStep::ProbeStarted
        } else {
            PreflightStep::WaitThenProbe { polls: polls + 1 }
        },
        (PreflightStep::ProbeStarted, PreflightEvent::Reachable(up)) => if up {
            PreflightStep::FetchModels
        } else {
            PreflightStep::Failed(PreflightError::NotStarted)
        },
        (PreflightStep::FetchModels, PreflightEvent::Models(answer)) => match answer {
            None => PreflightStep::Failed(PreflightError::ModelsUnavailable),
            Some(body) => match model_names(body.as_str()) {
                Err(e) => PreflightStep::Failed(PreflightError::Tags(e)),
                Ok(names) => {
                    let listed = model_listed(&names);
                    proof {
                        if listed {
                            let i = choose|i: int|
                                0 <= i < names.len() && model_matches(#[trigger] names@[i]@);
                            assert(string_views(names@)[i] == names@[i]@);
                        }
                        if lists_model(string_views(names@)) {
                            let i = choose|i: int|
                                0 <= i < string_views(names@).len() && model_matches(
                                    #[trigger] string_views(names@)[i],
                                );
                            assert(model_matches(names@[i]@));
                        }
                    }
                    if listed {
                        PreflightStep::Done
                    } else {
                        PreflightStep::ShowModels { available: names }
                    }
                },
            },
        },
        (PreflightStep::ShowModels { .. }, PreflightEvent::Shown) => if yes {
            PreflightStep::Pull
        } else {
            PreflightStep::ConfirmPull
        },
        (PreflightStep::ConfirmPull, PreflightEvent::Confirmed(ok)) => if ok {
            PreflightStep::Pull
        } else {
            PreflightStep::Failed(PreflightError::ModelMissing)
        },
        (PreflightStep::Pull, PreflightEvent::Pulled(outcome)) => match outcome {
            None => PreflightStep::Failed(PreflightError::PullNotRun),
            Some(ok) => if ok {
                PreflightStep::Done
            } else {
                PreflightStep::Failed(PreflightError::PullFailed)
            },
        },
        (step, _) => step,
    }
}

} // verus!
