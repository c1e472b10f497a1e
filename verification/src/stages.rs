//! Pipeline stages, their mathematical view, and what a stage process does
//! with the stage it was given.
use vstd::prelude::*;

verus! {

/// How many worker processes a script stage runs.
#[derive(Clone, Copy, Debug, PartialEq, Eq, Structural)]
pub enum WorkerMode {
    /// Not pinned: the orchestrator decides.
    Default,
    /// Pinned with `xN`.
    Fixed(usize),
}

/// A stage that runs a user program (a Python file or an executable).
#[derive(Clone, Debug, PartialEq, Eq)]
pub struct ScriptStage {
    pub path: String,
    pub flags: Vec<(String, String)>,
    pub workers: WorkerMode,
}

/// A stage that the runner implements itself.
#[derive(Clone, Debug, PartialEq, Eq)]
pub enum BuiltinStage {
    /// Reads a CSV file and streams it in batches of `batch_size` rows.
    Load { path: String, batch_size: usize },
    /// Writes every batch to a CSV file; the end of the pipeline.
    Save { path: String },
    /// Writes every batch to a CSV file and passes it on.
    Tee { path: String },
}

/// One stage of a pipeline.
#[derive(Clone, Debug, PartialEq, Eq)]
pub enum Stage {
    Builtin(BuiltinStage),
    Script(ScriptStage),
}

/// A stage as a mathematical value: paths and flags as character sequences,
/// counts as natural numbers (`None` for an unpinned worker count).
pub enum SpecStage {
    Load { path: Seq<char>, batch_size: nat },
    Save { path: Seq<char> },
    Tee { path: Seq<char> },
    Script { path: Seq<char>, workers: Option<nat>, flags: Seq<(Seq<char>, Seq<char>)> },
}

/// The flags of a script stage as pairs of character sequences.
pub open spec fn flags_view(f: Seq<(String, String)>) -> Seq<(Seq<char>, Seq<char>)> {
    f.map_values(|p: (String, String)| (p.0@, p.1@))
}

pub open spec fn workers_view(w: WorkerMode) -> Option<nat> {
    match w {
        WorkerMode::Default => None,
        WorkerMode::Fixed(n) => Some(n as nat),
    }
}

impl View for Stage {
    type V = SpecStage;

    open spec fn view(&self) -> SpecStage {
        match self {
            Stage::Builtin(BuiltinStage::Load { path, batch_size }) => SpecStage::Load {
                path: path@,
                batch_size: *batch_size as nat,
            },
            Stage::Builtin(BuiltinStage::Save { path }) => SpecStage::Save { path: path@ },
            Stage::Builtin(BuiltinStage::Tee { path }) => SpecStage::Tee { path: path@ },
            Stage::Script(s) => SpecStage::Script {
                path: s.path@,
                workers: workers_view(s.workers),
                flags: flags_view(s.flags@),
            },
        }
    }
}

/// The views of a sequence of stages.
pub open spec fn stages_view(v: Seq<Stage>) -> Seq<SpecStage> {
    v.map_values(|s: Stage| s@)
}

/// The command-line words for a program's flags: each flag gives its key,
/// followed by its value unless the value is empty.
pub open spec fn flat_flags(f: Seq<(Seq<char>, Seq<char>)>) -> Seq<Seq<char>>
    decreases f.len(),
{
    if f.len() == 0 {
        Seq::empty()
    } else {
        let (k, v) = f.last();
        flat_flags(f.drop_last()) + if v.len() == 0 {
            seq![k]
        } else {
            seq![k, v]
        }
    }
}

/// The views of a sequence of string slices.
pub open spec fn strs_view(v: Seq<&str>) -> Seq<Seq<char>> {
    v.map_values(|s: &str| s@)
}

/// The arguments a program stage is started with, from its flags.
pub fn flatten_flags(flags: &[(String, String)]) -> (r: Vec<&str>)
    ensures
        strs_view(r@) == flat_flags(flags_view(flags@)),
{
    let mut r: Vec<&str> = Vec::new();
    let mut i: usize = 0;
    while i < flags.len()
        invariant
            i <= flags@.len(),
            strs_view(r@) == flat_flags(flags_view(flags@.take(i as int))),
        decreases flags@.len() - i,
    {
        let k = flags[i].0.as_str();
        let v = flags[i].1.as_str();
        let ghost before = r@;
        assert(flags_view(flags@.take(i + 1)).drop_last() =~= flags_view(flags@.take(i as int)));
        assert(flags_view(flags@.take(i + 1)).last() == (k@, v@));
        let ghost x = flags_view(flags@.take(i + 1));
        assert(flat_flags(x) == flat_flags(x.drop_last()) + if v@.len() == 0 {
            seq![k@]
        } else {
            seq![k@, v@]
        });
        if v.is_empty() {
            r.push(k);
            assert(strs_view(r@) =~= strs_view(before) + seq![k@]);
        } else {
            r.push(k);
            r.push(v);
            assert(strs_view(r@) =~= strs_view(before) + seq![k@, v@]);
        }
        i = i + 1;
    }
    assert(flags@.take(flags@.len() as int) =~= flags@);
    r
}

/// What a stage process runs for the stage it was given.
#[derive(Clone, Debug, PartialEq, Eq)]
pub enum StageAction {
    /// Stream a CSV file out in batches.
    Load { path: String, batch_size: usize },
    /// Write every incoming batch to a CSV file.
    Save { path: String },
    /// Write every incoming batch to a CSV file and pass it on.
    Tee { path: String },
    /// Run a Python stage in this process (one worker).
    RunScript { path: String, flags: Vec<(String, String)> },
    /// Manage the worker processes of a script stage.
    Manage { path: String, flags: Vec<(String, String)>, index: usize, workers: WorkerMode },
}

/// Decides what a stage process runs: a builtin stage runs itself; a script
/// stage runs in-process when this process is one of its Python workers, and
/// otherwise manages the stage's workers.
pub fn run_stage(stage: Stage, is_python: bool, index: usize) -> (r: StageAction)
    ensures
        r == (match stage {
            Stage::Builtin(BuiltinStage::Load { path, batch_size }) => StageAction::Load {
                path,
                batch_size,
            },
            Stage::Builtin(BuiltinStage::Save { path }) => StageAction::Save { path },
            Stage::Builtin(BuiltinStage::Tee { path }) => StageAction::Tee { path },
            Stage::Script(ScriptStage { path, flags, workers }) => if is_python {
                StageAction::RunScript { path, flags }
            } else {
                StageAction::Manage { path, flags, index, workers }
            },
        }),
{
    match stage {
        Stage::Builtin(BuiltinStage::Load { path, batch_size }) => StageAction::Load {
            path,
            batch_size,
        },
        Stage::Builtin(BuiltinStage::Save { path }) => StageAction::Save { path },
        Stage::Builtin(BuiltinStage::Tee { path }) => StageAction::Tee { path },
        Stage::Script(ScriptStage { path, flags, workers }) => if is_python {
            StageAction::RunScript { path, flags }
        } else {
            StageAction::Manage { path, flags, index, workers }
        },
    }
}

} // verus!
