//! Choices made when preparing a project's Python environment: which
//! interpreter is recent enough, which package manager installs the
//! dependencies, and the commands that set the environment up.
use vstd::prelude::*;

use crate::error::RilError;
use crate::text::{
    chars_of, parse_uint, parse_uint_range, push_str, split_chars, split_on, string_of, views,
    words, words_of,
};

verus! {

/// The helper module written into a project, which marks a stage's function.
pub const RIL_PY: &'static str = "def rilfn(fn):\n    import sys\n    frame = sys._getframe(1)\n    frame.f_globals['__ril_main__'] = fn\n    return fn\n";

/// A version part read as a number, or zero when it does not read as one.
pub open spec fn part_value(s: Seq<char>) -> nat {
    match parse_uint(s, u32::MAX as nat) {
        Ok(n) => n,
        Err(_) => 0,
    }
}

/// Whether `python --version` printed a version of at least 3.11: its second
/// word, split at `.`, has a major part 3 and a minor part at least 11.
pub open spec fn version_ok(text: Seq<char>) -> bool {
    let w = words(text);
    let v = if w.len() >= 2 {
        w[1]
    } else {
        Seq::<char>::empty()
    };
    let parts = split_on(v, '.');
    parts.len() >= 2 && part_value(parts[0]) == 3 && part_value(parts[1]) >= 11
}

fn part_of(v: &Vec<char>) -> (n: u32)
    ensures
        n == part_value(v@),
{
    assert(v@.subrange(0, v@.len() as int) =~= v@);
    match parse_uint_range(v, 0, v.len(), u32::MAX as u64) {
        Ok(n) => n as u32,
        Err(_) => 0,
    }
}

/// Reads the output of `python --version`.
pub fn parse_version_ok(text: &str) -> (b: bool)
    ensures
        b == version_ok(text@),
{
    let chars = chars_of(text);
    let w = words_of(&chars);
    let v: Vec<char> = if w.len() >= 2 {
        let mut c: Vec<char> = Vec::new();
        let src = &w[1];
        let mut i: usize = 0;
        while i < src.len()
            invariant
                i <= src@.len(),
                c@ == src@.take(i as int),
            decreases src@.len() - i,
        {
            c.push(src[i]);
            i = i + 1;
            assert(c@ =~= src@.take(i as int));
        }
        assert(src@.take(src@.len() as int) =~= src@);
        assert(views(w@)[1] == w@[1]@);
        c
    } else {
        Vec::new()
    };
    let parts = split_chars(&v, '.');
    if parts.len() < 2 {
        return false;
    }
    assert(views(parts@)[0] == parts@[0]@);
    assert(views(parts@)[1] == parts@[1]@);
    part_of(&parts[0]) == 3 && part_of(&parts[1]) >= 11
}

/// The interpreters tried, newest first, then plain `python3`.
pub open spec fn candidates() -> Seq<Seq<char>> {
    seq![
        "python3.14"@,
        "python3.13"@,
        "python3.12"@,
        "python3.11"@,
        "python3"@,
    ]
}

/// The message when no interpreter is recent enough.
pub open spec fn no_python_text() -> Seq<char> {
    "ril requires Python 3.11 or newer, but none was found on PATH.\nTried: "@ + "python3.14"@
        + ", "@ + "python3.13"@ + ", "@ + "python3.12"@ + ", "@ + "python3.11"@
        + ", python3.\nInstall Python 3.11–3.14 and make sure it is on your PATH."@
}

/// The interpreters to try, in order.
pub fn python_candidates() -> (v: Vec<&'static str>)
    ensures
        v@.len() == 5,
        forall|i: int| 0 <= i < 5 ==> (#[trigger] v@[i])@ == candidates()[i],
{
    let mut v: Vec<&'static str> = Vec::new();
    v.push("python3.14");
    v.push("python3.13");
    v.push("python3.12");
    v.push("python3.11");
    v.push("python3");
    v
}

/// Picks the first interpreter, in the order of `candidates`, whose check
/// passed (`passed[i]` for the `i`-th; a missing entry counts as failed).
pub fn find_python(passed: &Vec<bool>) -> (r: Result<String, RilError>)
    ensures
        r matches Ok(p) ==> exists|i: int|
            0 <= i < 5 && i < passed@.len() && passed@[i] && p@ == candidates()[i] && forall|j: int|
                0 <= j < i ==> !(j < passed@.len() && #[trigger] passed@[j]),
        r is Err <==> forall|j: int| 0 <= j < 5 ==> !(j < passed@.len() && #[trigger] passed@[j]),
        r matches Err(e) ==> (e matches RilError::Fatal(m) && m@ == no_python_text()),
{
    let names = python_candidates();
    let mut i: usize = 0;
    while i < 5
        invariant
            i <= 5,
            names@.len() == 5,
            forall|k: int| 0 <= k < 5 ==> (#[trigger] names@[k])@ == candidates()[k],
            forall|j: int| 0 <= j < i ==> !(j < passed@.len() && #[trigger] passed@[j]),
        decreases 5 - i,
    {
        if i < passed.len() && passed[i] {
            let p = string_of(&chars_of(names[i]));
            return Ok(p);
        }
        i = i + 1;
    }
    let mut m = String::new();
    push_str(&mut m, "ril requires Python 3.11 or newer, but none was found on PATH.\nTried: ");
    push_str(&mut m, "python3.14");
    push_str(&mut m, ", ");
    push_str(&mut m, "python3.13");
    push_str(&mut m, ", ");
    push_str(&mut m, "python3.12");
    push_str(&mut m, ", ");
    push_str(&mut m, "python3.11");
    push_str(&mut m, ", python3.\nInstall Python 3.11–3.14 and make sure it is on your PATH.");
    assert(m@ =~= no_python_text());
    Err(RilError::Fatal(m))
}

/// The tool that manages a project's environment.
#[derive(Clone, Copy, Debug, PartialEq, Eq, Structural)]
pub enum PackageManager {
    Pip,
    Uv,
}

/// `uv` when the project has a `uv.lock`, else `pip`.
pub fn package_manager(has_uv_lock: bool) -> (m: PackageManager)
    ensures
        m == if has_uv_lock {
            PackageManager::Uv
        } else {
            PackageManager::Pip
        },
{
    if has_uv_lock {
        PackageManager::Uv
    } else {
        PackageManager::Pip
    }
}


/// The views of a sequence of strings.
pub open spec fn strings_view(v: Seq<String>) -> Seq<Seq<char>> {
    v.map_values(|s: String| s@)
}

/// The command line that creates the project's `.venv`: `uv venv` under uv,
/// else `<python> -m venv .venv` with the interpreter that was found.
pub open spec fn venv_command_text(m: PackageManager, python: Seq<char>) -> Seq<Seq<char>> {
    match m {
        PackageManager::Uv => seq!["uv"@, "venv"@],
        PackageManager::Pip => seq![python, "-m"@, "venv"@, ".venv"@],
    }
}

/// The command line that installs the stage runtime's dependencies into the
/// project's environment.
pub open spec fn install_command_text(m: PackageManager) -> Seq<Seq<char>> {
    match m {
        PackageManager::Uv => seq!["uv"@, "pip"@, "install"@, "pyarrow"@, "arro3-core"@],
        PackageManager::Pip => seq![".venv/bin/pip3"@, "install"@, "pyarrow"@, "arro3-core"@],
    }
}

fn owned(t: &str) -> (s: String)
    ensures
        s@ == t@,
{
    string_of(&chars_of(t))
}

pub fn venv_command(m: PackageManager, python: &str) -> (v: Vec<String>)
    ensures
        strings_view(v@) == venv_command_text(m, python@),
{
    let mut v: Vec<String> = Vec::new();
    match m {
        PackageManager::Uv => {
            v.push(owned("uv"));
            v.push(owned("venv"));
        },
        PackageManager::Pip => {
            v.push(owned(python));
            v.push(owned("-m"));
            v.push(owned("venv"));
            v.push(owned(".venv"));
        },
    }
    assert(strings_view(v@) =~= venv_command_text(m, python@));
    v
}

pub fn install_command(m: PackageManager) -> (v: Vec<String>)
    ensures
        strings_view(v@) == install_command_text(m),
{
    let mut v: Vec<String> = Vec::new();
    match m {
        PackageManager::Uv => {
            v.push(owned("uv"));
            v.push(owned("pip"));
        },
        PackageManager::Pip => {
            v.push(owned(".venv/bin/pip3"));
        },
    }
    v.push(owned("install"));
    v.push(owned("pyarrow"));
    v.push(owned("arro3-core"));
    assert(strings_view(v@) =~= install_command_text(m));
    v
}


/// One step of preparing the project's environment.
#[derive(Clone, Debug, PartialEq, Eq)]
pub enum SetupStep {
    /// Run this command line to create `.venv`.
    CreateVenv(Vec<String>),
    /// Point `VIRTUAL_ENV` at `.venv`.
    ActivateVenv,
    /// Run this command line to install the dependencies.
    Install(Vec<String>),
    /// Write the helper module `ril.py` (`RIL_PY`).
    WriteHelper,
}

/// A setup step as a mathematical value.
pub enum StepView {
    CreateVenv(Seq<Seq<char>>),
    ActivateVenv,
    Install(Seq<Seq<char>>),
    WriteHelper,
}

impl View for SetupStep {
    type V = StepView;

    open spec fn view(&self) -> StepView {
        match self {
            SetupStep::CreateVenv(c) => StepView::CreateVenv(strings_view(c@)),
            SetupStep::ActivateVenv => StepView::ActivateVenv,
            SetupStep::Install(c) => StepView::Install(strings_view(c@)),
            SetupStep::WriteHelper => StepView::WriteHelper,
        }
    }
}

/// Whether setting up needs a Python interpreter: only pip, to create a
/// missing `.venv`.
pub open spec fn spec_needs_interpreter(has_uv_lock: bool, has_venv: bool) -> bool {
    !has_uv_lock && !has_venv
}

pub fn needs_interpreter(has_uv_lock: bool, has_venv: bool) -> (b: bool)
    ensures
        b == spec_needs_interpreter(has_uv_lock, has_venv),
{
    !has_uv_lock && !has_venv
}

/// The steps that prepare a project, in order: create `.venv` when there is
/// none (with uv when the project has a `uv.lock`, else with `python`), point
/// `VIRTUAL_ENV` at it, install the dependencies, and write `ril.py` when it is
/// missing.
pub open spec fn setup_plan(has_uv_lock: bool, has_venv: bool, python: Seq<char>, has_helper: bool) -> Seq<StepView> {
    let m = if has_uv_lock {
        PackageManager::Uv
    } else {
        PackageManager::Pip
    };
    (if has_venv {
        Seq::<StepView>::empty()
    } else {
        seq![StepView::CreateVenv(venv_command_text(m, python))]
    }) + seq![StepView::ActivateVenv, StepView::Install(install_command_text(m))] + (if has_helper {
        Seq::<StepView>::empty()
    } else {
        seq![StepView::WriteHelper]
    })
}

/// The views of a sequence of steps.
pub open spec fn steps_view(v: Seq<SetupStep>) -> Seq<StepView> {
    v.map_values(|st: SetupStep| st@)
}

pub fn setup_steps(has_uv_lock: bool, has_venv: bool, python: &str, has_helper: bool) -> (v: Vec<SetupStep>)
    ensures
        steps_view(v@) == setup_plan(has_uv_lock, has_venv, python@, has_helper),
{
    let m = package_manager(has_uv_lock);
    let mut v: Vec<SetupStep> = Vec::new();
    if !has_venv {
        v.push(SetupStep::CreateVenv(venv_command(m, python)));
    }
    v.push(SetupStep::ActivateVenv);
    v.push(SetupStep::Install(install_command(m)));
    if !has_helper {
        v.push(SetupStep::WriteHelper);
    }
    assert(steps_view(v@) =~= setup_plan(has_uv_lock, has_venv, python@, has_helper));
    v
}

/// Whatever the package manager and interpreter: `ril.py` is written exactly
/// when it is missing, `.venv` is created exactly when it is missing, and the
/// environment is always activated and the dependencies installed.
pub proof fn lemma_setup_steps_follow_the_project(
    has_uv_lock: bool,
    has_venv: bool,
    python: Seq<char>,
    has_helper: bool,
)
    ensures
        (exists|k: int|
            0 <= k < setup_plan(has_uv_lock, has_venv, python, has_helper).len() && #[trigger] setup_plan(
                has_uv_lock,
                has_venv,
                python,
                has_helper,
            )[k] is WriteHelper) <==> !has_helper,
        (exists|k: int|
            0 <= k < setup_plan(has_uv_lock, has_venv, python, has_helper).len() && #[trigger] setup_plan(
                has_uv_lock,
                has_venv,
                python,
                has_helper,
            )[k] is CreateVenv) <==> !has_venv,
        exists|k: int|
            0 <= k < setup_plan(has_uv_lock, has_venv, python, has_helper).len() && #[trigger] setup_plan(
                has_uv_lock,
                has_venv,
                python,
                has_helper,
            )[k] is ActivateVenv,
        exists|k: int|
            0 <= k < setup_plan(has_uv_lock, has_venv, python, has_helper).len() && #[trigger] setup_plan(
                has_uv_lock,
                has_venv,
                python,
                has_helper,
            )[k] is Install,
{
    let p = setup_plan(has_uv_lock, has_venv, python, has_helper);
    let a: int = if has_venv {
        0
    } else {
        1
    };
    assert(p[a] is ActivateVenv);
    assert(p[a + 1] is Install);
    if !has_helper {
        assert(p[a + 2] is WriteHelper);
    } else {
        assert(p.len() == a + 2);
        assert forall|k: int| 0 <= k < p.len() implies !(#[trigger] p[k] is WriteHelper) by {}
    }
    if !has_venv {
        assert(p[0] is CreateVenv);
    } else {
        assert forall|k: int| 0 <= k < p.len() implies !(#[trigger] p[k] is CreateVenv) by {}
    }
}

} // verus!
