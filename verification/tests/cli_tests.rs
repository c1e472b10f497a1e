use ril::cli::{wants_help, RunMode};
use ril::error::RilError;
use ril::stages::{flatten_flags, run_stage, BuiltinStage, ScriptStage, Stage, StageAction, WorkerMode};

#[test]
fn run_mode_from_environment() {
    assert_eq!(RunMode::detect(None, Some("true")), Ok(RunMode::Pipeline));
    assert_eq!(
        RunMode::detect(Some("3"), Some("true")),
        Ok(RunMode::StageWorker { index: 3, is_python: true })
    );
    assert_eq!(
        RunMode::detect(Some("+4"), Some("True")),
        Ok(RunMode::StageWorker { index: 4, is_python: false })
    );
    assert_eq!(
        RunMode::detect(Some("0"), None),
        Ok(RunMode::StageWorker { index: 0, is_python: false })
    );
}

#[test]
fn bad_stage_index_is_an_error() {
    assert_eq!(
        RunMode::detect(Some(""), None),
        Err(RilError::Fatal("cannot parse integer from empty string".to_string()))
    );
    assert_eq!(
        RunMode::detect(Some("-1"), None),
        Err(RilError::Fatal("invalid digit found in string".to_string()))
    );
    assert_eq!(
        RunMode::detect(Some("99999999999999999999999"), None),
        Err(RilError::Fatal("number too large to fit in target type".to_string()))
    );
}

#[test]
fn help_flags() {
    assert!(wants_help(&vec!["ril".to_string(), "-h".to_string()]));
    assert!(wants_help(&vec!["ril".to_string(), "x".to_string(), "--help".to_string()]));
    assert!(!wants_help(&vec!["ril".to_string(), "-help".to_string()]));
    assert!(!wants_help(&vec![]));
}

#[test]
fn error_messages() {
    assert_eq!(RilError::Parse("bad".to_string()).message(), "parse error: bad");
    assert_eq!(
        RilError::Stage { index: 2, name: "x.py".to_string(), inner: "boom".to_string() }.message(),
        "stage[2] `x.py` failed: boom"
    );
    assert_eq!(
        RilError::Worker { worker_index: 1, batch_index: 30, inner: "eof".to_string() }.message(),
        "worker[1] at batch 30: eof"
    );
    assert_eq!(
        RilError::Python { traceback: "Traceback".to_string() }.message(),
        "python error:\nTraceback"
    );
    assert_eq!(RilError::Fatal("m".to_string()).message(), "m");
}

#[test]
fn flags_become_arguments() {
    let flags = vec![
        ("mode".to_string(), "fast".to_string()),
        ("v".to_string(), "".to_string()),
        ("n".to_string(), "3".to_string()),
    ];
    assert_eq!(flatten_flags(&flags), vec!["mode", "fast", "v", "n", "3"]);
    assert!(flatten_flags(&[]).is_empty());
}

#[test]
fn stage_processes_run_their_stage() {
    let load = Stage::Builtin(BuiltinStage::Load { path: "a.csv".to_string(), batch_size: 5 });
    assert_eq!(
        run_stage(load, true, 0),
        StageAction::Load { path: "a.csv".to_string(), batch_size: 5 }
    );
    let tee = Stage::Builtin(BuiltinStage::Tee { path: "t.csv".to_string() });
    assert_eq!(run_stage(tee, false, 1), StageAction::Tee { path: "t.csv".to_string() });
    let script = Stage::Script(ScriptStage {
        path: "s.py".to_string(),
        flags: vec![("k".to_string(), "v".to_string())],
        workers: WorkerMode::Fixed(2),
    });
    assert_eq!(
        run_stage(script.clone(), true, 2),
        StageAction::RunScript {
            path: "s.py".to_string(),
            flags: vec![("k".to_string(), "v".to_string())]
        }
    );
    assert_eq!(
        run_stage(script, false, 2),
        StageAction::Manage {
            path: "s.py".to_string(),
            flags: vec![("k".to_string(), "v".to_string())],
            index: 2,
            workers: WorkerMode::Fixed(2)
        }
    );
}
