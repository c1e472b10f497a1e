use ril::setup::{install_command, needs_interpreter, setup_steps, venv_command, SetupStep};
use ril::error::RilError;
use ril::setup::{find_python, package_manager, parse_version_ok, python_candidates, PackageManager};

#[test]
fn accepts_311_and_above() {
    assert!(parse_version_ok("Python 3.11.0"));
    assert!(parse_version_ok("Python 3.12.3"));
    assert!(parse_version_ok("Python 3.13.0rc1"));
    assert!(parse_version_ok("Python 3.14.0a5"));
}

#[test]
fn rejects_below_311() {
    assert!(!parse_version_ok("Python 3.10.12"));
    assert!(!parse_version_ok("Python 3.9.7"));
    assert!(!parse_version_ok("Python 2.7.18"));
}

#[test]
fn rejects_garbage() {
    assert!(!parse_version_ok(""));
    assert!(!parse_version_ok("not a version"));
}

#[test]
fn version_check_reads_the_second_word_only() {
    assert!(parse_version_ok("Python  3.11\n"));
    assert!(parse_version_ok("\tPython 3.20"));
    assert!(!parse_version_ok("3.11.0"));
    assert!(!parse_version_ok("Python 4.11.0"));
    assert!(!parse_version_ok("Python 3"));
    assert!(!parse_version_ok("Python +3.x"));
    assert!(parse_version_ok("Python +3.+12"));
}

#[test]
fn candidates_newest_first() {
    assert_eq!(
        python_candidates(),
        vec!["python3.14", "python3.13", "python3.12", "python3.11", "python3"]
    );
}

#[test]
fn find_python_takes_first_passing() {
    assert_eq!(find_python(&vec![false, true, true, false, true]), Ok("python3.13".to_string()));
    assert_eq!(find_python(&vec![true, true, true, true, true]), Ok("python3.14".to_string()));
    assert_eq!(find_python(&vec![false, false, false, false, true]), Ok("python3".to_string()));
    assert_eq!(find_python(&vec![false, false, true]), Ok("python3.12".to_string()));
}

#[test]
fn find_python_reports_none_found() {
    let expected = "ril requires Python 3.11 or newer, but none was found on PATH.\n\
                    Tried: python3.14, python3.13, python3.12, python3.11, python3.\n\
                    Install Python 3.11–3.14 and make sure it is on your PATH.";
    assert_eq!(find_python(&vec![false; 5]), Err(RilError::Fatal(expected.to_string())));
    assert_eq!(find_python(&vec![]), Err(RilError::Fatal(expected.to_string())));
}

#[test]
fn uv_lock_selects_uv() {
    assert_eq!(package_manager(true), PackageManager::Uv);
    assert_eq!(package_manager(false), PackageManager::Pip);
}

#[test]
fn setup_commands_follow_the_package_manager() {
    assert_eq!(venv_command(PackageManager::Uv, "python3.12"), vec!["uv", "venv"]);
    assert_eq!(venv_command(PackageManager::Pip, "python3.12"), vec!["python3.12", "-m", "venv", ".venv"]);
    assert_eq!(install_command(PackageManager::Uv), vec!["uv", "pip", "install", "pyarrow", "arro3-core"]);
    assert_eq!(install_command(PackageManager::Pip), vec![".venv/bin/pip3", "install", "pyarrow", "arro3-core"]);
}

#[test]
fn setup_steps_in_order() {
    let s = |v: &[&str]| v.iter().map(|x| x.to_string()).collect::<Vec<String>>();
    assert_eq!(
        setup_steps(false, false, "python3.12", false),
        vec![
            SetupStep::CreateVenv(s(&["python3.12", "-m", "venv", ".venv"])),
            SetupStep::ActivateVenv,
            SetupStep::Install(s(&[".venv/bin/pip3", "install", "pyarrow", "arro3-core"])),
            SetupStep::WriteHelper,
        ]
    );
    assert_eq!(
        setup_steps(true, true, "", true),
        vec![SetupStep::ActivateVenv, SetupStep::Install(s(&["uv", "pip", "install", "pyarrow", "arro3-core"]))]
    );
    assert_eq!(setup_steps(true, false, "", true)[0], SetupStep::CreateVenv(s(&["uv", "venv"])));
    assert!(needs_interpreter(false, false));
    assert!(!needs_interpreter(true, false));
    assert!(!needs_interpreter(false, true));
}
