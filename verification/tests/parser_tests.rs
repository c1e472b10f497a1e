use ril::error::RilError;
use ril::parser::{counts_fit_in, parse};
use ril::stages::{BuiltinStage, ScriptStage, Stage, WorkerMode};

fn load(path: &str, batch_size: usize) -> Stage {
    Stage::Builtin(BuiltinStage::Load { path: path.to_string(), batch_size })
}

fn save(path: &str) -> Stage {
    Stage::Builtin(BuiltinStage::Save { path: path.to_string() })
}

fn tee(path: &str) -> Stage {
    Stage::Builtin(BuiltinStage::Tee { path: path.to_string() })
}

fn script(path: &str, workers: WorkerMode, flags: &[(&str, &str)]) -> Stage {
    Stage::Script(ScriptStage {
        path: path.to_string(),
        flags: flags.iter().map(|(k, v)| (k.to_string(), v.to_string())).collect(),
        workers,
    })
}

#[test]
fn parses_readme_pipeline() {
    let src = "load data.csv +2000\n| clean.py\n| tee cleaned_data.csv\n| featurize.py\n| score.py\n| save output.csv\n";
    assert_eq!(
        parse(src),
        Ok(vec![
            load("data.csv", 2000),
            script("clean.py", WorkerMode::Default, &[]),
            tee("cleaned_data.csv"),
            script("featurize.py", WorkerMode::Default, &[]),
            script("score.py", WorkerMode::Default, &[]),
            save("output.csv"),
        ])
    );
}

#[test]
fn load_defaults_to_1000_rows() {
    assert_eq!(
        parse("load input.csv | save output.csv"),
        Ok(vec![load("input.csv", 1000), save("output.csv")])
    );
}

#[test]
fn pinned_workers_and_flags() {
    assert_eq!(
        parse("load data.csv | featurize.py x4 mode=fast depth= | ./transform x1 | save out.csv"),
        Ok(vec![
            load("data.csv", 1000),
            script("featurize.py", WorkerMode::Fixed(4), &[("mode", "fast"), ("depth", "")]),
            script("./transform", WorkerMode::Fixed(1), &[]),
            save("out.csv"),
        ])
    );
}

#[test]
fn flag_value_keeps_later_equals_signs() {
    assert_eq!(
        parse("run.py a=b=c"),
        Ok(vec![script("run.py", WorkerMode::Default, &[("a", "b=c")])])
    );
}

#[test]
fn no_spaces_around_pipes_needed() {
    assert_eq!(parse("load a.csv|save b.csv"), Ok(vec![load("a.csv", 1000), save("b.csv")]));
}

#[test]
fn bad_syntax_names_the_stage() {
    assert_eq!(
        parse("@@@invalid@@@"),
        Err(RilError::Parse(
            "stage 1: expected pipeline stage, found `@@@invalid@@@`".to_string()
        ))
    );
    let e = parse("load a.csv |  save  | save b.csv").unwrap_err();
    assert_eq!(e, RilError::Parse("stage 2: expected pipeline stage, found `save`".to_string()));
    assert!(e.message().contains("expected pipeline"));
}

#[test]
fn empty_text_and_empty_stages_are_errors() {
    assert_eq!(
        parse(""),
        Err(RilError::Parse("stage 1: expected pipeline stage, found ``".to_string()))
    );
    assert_eq!(
        parse("load a.csv | | save b.csv"),
        Err(RilError::Parse("stage 2: expected pipeline stage, found ``".to_string()))
    );
}

#[test]
fn malformed_words_are_rejected() {
    assert!(parse("load a.csv 500").is_err());
    assert!(parse("load a.csv +").is_err());
    assert!(parse("load a.csv +5x").is_err());
    assert!(parse("load").is_err());
    assert!(parse("save a.csv b.csv").is_err());
    assert!(parse("clean.py x").is_err());
    assert!(parse("clean.py verbose").is_err());
    assert!(parse("clean.py =v").is_err());
    assert!(parse("clean.py x2 x3").is_err());
}

#[test]
fn keyword_words_are_not_programs() {
    assert_eq!(parse("loader.py"), Ok(vec![script("loader.py", WorkerMode::Default, &[])]));
    assert!(parse("tee").is_err());
}

#[test]
fn counts_that_do_not_fit_are_detected() {
    assert!(counts_fit_in("load a.csv +18446744073709551615 | save b.csv"));
    assert!(!counts_fit_in("load a.csv +18446744073709551616 | save b.csv"));
    assert!(!counts_fit_in("a.py x99999999999999999999999"));
    assert!(counts_fit_in("@@@ | a.py x99999999999999999999999"));
}
