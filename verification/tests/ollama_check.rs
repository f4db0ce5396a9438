use book_parser::ollama::{model_names, preflight_next, PreflightError, PreflightEvent, PreflightStep, TagsError, START_POLLS};

fn names(body: &str) -> Vec<String> {
    match model_names(body) {
        Ok(v) => v,
        Err(_) => panic!("model list not read: {body}"),
    }
}

#[test]
fn model_list_is_read_from_the_tags_answer() {
    let body = r#"{"models":[{"name":"llama3:8b"},{"size":3},{"name":7},{"name":"translategemma:4b"}]}"#;
    assert_eq!(names(body), vec!["llama3:8b".to_string(), "translategemma:4b".to_string()]);
    assert_eq!(names(r#"{"models":[]}"#), Vec::<String>::new());
    assert!(matches!(model_names("not json"), Err(TagsError::NotJson(_))));
    assert!(matches!(model_names(r#"{"models":{}}"#), Err(TagsError::NoModelList)));
    assert!(matches!(model_names(r#"{"other":1}"#), Err(TagsError::NoModelList)));
}

fn next(step: PreflightStep, event: PreflightEvent, yes: bool) -> PreflightStep {
    preflight_next(step, event, yes)
}

#[test]
fn a_running_server_with_the_model_passes() {
    let step = next(PreflightStep::Probe, PreflightEvent::Reachable(true), false);
    assert!(matches!(step, PreflightStep::FetchModels));
    let body = r#"{"models":[{"name":"translategemma:12b"}]}"#.to_string();
    assert!(matches!(next(step, PreflightEvent::Models(Some(body)), false), PreflightStep::Done));
}

#[test]
fn a_stopped_server_is_started_and_waited_for() {
    assert!(matches!(next(PreflightStep::Probe, PreflightEvent::Reachable(false), false), PreflightStep::ConfirmStart));
    assert!(matches!(next(PreflightStep::Probe, PreflightEvent::Reachable(false), true), PreflightStep::StartServer));
    assert!(matches!(
        next(PreflightStep::ConfirmStart, PreflightEvent::Confirmed(false), false),
        PreflightStep::Failed(PreflightError::NotReachable)
    ));
    assert!(matches!(
        next(PreflightStep::StartServer, PreflightEvent::Started(false), false),
        PreflightStep::Failed(PreflightError::StartFailed)
    ));
    let mut step = next(PreflightStep::StartServer, PreflightEvent::Started(true), false);
    let mut waits = 0;
    while let PreflightStep::WaitThenProbe { .. } = step {
        waits += 1;
        step = next(step, PreflightEvent::Reachable(false), false);
    }
    assert_eq!(waits, START_POLLS);
    assert!(matches!(step, PreflightStep::ProbeStarted));
    assert!(matches!(
        next(PreflightStep::ProbeStarted, PreflightEvent::Reachable(false), false),
        PreflightStep::Failed(PreflightError::NotStarted)
    ));
    let step = next(PreflightStep::WaitThenProbe { polls: 3 }, PreflightEvent::Reachable(true), false);
    assert!(matches!(step, PreflightStep::ProbeStarted));
}

#[test]
fn a_missing_model_is_shown_then_pulled() {
    let body = r#"{"models":[{"name":"llama3:8b"}]}"#.to_string();
    let step = next(PreflightStep::FetchModels, PreflightEvent::Models(Some(body)), false);
    match &step {
        PreflightStep::ShowModels { available } => assert_eq!(available, &vec!["llama3:8b".to_string()]),
        _ => panic!("models not shown"),
    }
    assert!(matches!(next(PreflightStep::ShowModels { available: vec![] }, PreflightEvent::Shown, true), PreflightStep::Pull));
    let step = next(step, PreflightEvent::Shown, false);
    assert!(matches!(step, PreflightStep::ConfirmPull));
    assert!(matches!(
        next(PreflightStep::ConfirmPull, PreflightEvent::Confirmed(false), false),
        PreflightStep::Failed(PreflightError::ModelMissing)
    ));
    assert!(matches!(next(PreflightStep::Pull, PreflightEvent::Pulled(Some(true)), false), PreflightStep::Done));
    assert!(matches!(next(PreflightStep::Pull, PreflightEvent::Pulled(Some(false)), false), PreflightStep::Failed(PreflightError::PullFailed)));
    assert!(matches!(next(PreflightStep::Pull, PreflightEvent::Pulled(None), false), PreflightStep::Failed(PreflightError::PullNotRun)));
    assert!(matches!(
        next(PreflightStep::FetchModels, PreflightEvent::Models(None), false),
        PreflightStep::Failed(PreflightError::ModelsUnavailable)
    ));
    assert!(matches!(
        next(PreflightStep::FetchModels, PreflightEvent::Models(Some("<html>".to_string())), false),
        PreflightStep::Failed(PreflightError::Tags(TagsError::NotJson(_)))
    ));
    // An event that does not answer the step leaves it as it is.
    assert!(matches!(next(PreflightStep::Done, PreflightEvent::Shown, false), PreflightStep::Done));
}
