//! How the program decides what it is: the orchestrator of a pipeline, or one
//! stage process that the orchestrator started.
use vstd::prelude::*;

use crate::error::RilError;
use crate::text::{chars_of, parse_uint, parse_uint_range, string_of, IntErrorKind};

verus! {

/// What this process does.
#[derive(Clone, Copy, Debug, PartialEq, Eq, Structural)]
pub enum RunMode {
    /// Run the whole pipeline.
    Pipeline,
    /// Run stage `index` of the pipeline; `is_python` when this process is a
    /// Python worker of a script stage.
    StageWorker { index: usize, is_python: bool },
}

/// The message of each reason why text is not an integer.
pub open spec fn int_error_text(k: IntErrorKind) -> Seq<char> {
    match k {
        IntErrorKind::Empty => "cannot parse integer from empty string"@,
        IntErrorKind::InvalidDigit => "invalid digit found in string"@,
        IntErrorKind::PosOverflow => "number too large to fit in target type"@,
    }
}

pub fn int_error_message(k: IntErrorKind) -> (s: String)
    ensures
        s@ == int_error_text(k),
{
    let lit = match k {
        IntErrorKind::Empty => "cannot parse integer from empty string",
        IntErrorKind::InvalidDigit => "invalid digit found in string",
        IntErrorKind::PosOverflow => "number too large to fit in target type",
    };
    string_of(&chars_of(lit))
}

/// The mode that the stage index and the Python flag of the environment give:
/// no index means the whole pipeline; an index must read as a number; the
/// flag counts only when it reads `true`.
pub open spec fn spec_detect(stage_index: Option<Seq<char>>, is_python: Option<Seq<char>>) -> Result<
    RunMode,
    Seq<char>,
> {
    match stage_index {
        None => Ok(RunMode::Pipeline),
        Some(s) => match parse_uint(s, usize::MAX as nat) {
            Ok(n) => Ok(
                RunMode::StageWorker {
                    index: n as usize,
                    is_python: is_python matches Some(v) && v == "true"@,
                },
            ),
            Err(k) => Err(int_error_text(k)),
        },
    }
}

pub open spec fn opt_view(o: Option<&str>) -> Option<Seq<char>> {
    match o {
        Some(s) => Some(s@),
        None => None,
    }
}

impl RunMode {
    /// Decides the mode from the values of the environment variables that the
    /// orchestrator sets for a stage process (`RIL_STAGE_INDEX`,
    /// `RIL_WORKER_IS_PYTHON`).
    pub fn detect(stage_index: Option<&str>, is_python: Option<&str>) -> (r: Result<
        RunMode,
        RilError,
    >)
        ensures
            spec_detect(opt_view(stage_index), opt_view(is_python)) matches Ok(m) ==> r == Ok::<
                RunMode,
                RilError,
            >(m),
            spec_detect(opt_view(stage_index), opt_view(is_python)) matches Err(t) ==> (r matches Err(
                RilError::Fatal(m),
            ) && m@ == t),
    {
        match stage_index {
            None => Ok(RunMode::Pipeline),
            Some(s) => {
                let v = chars_of(s);
                assert(v@.subrange(0, v@.len() as int) =~= v@);
                match parse_uint_range(&v, 0, v.len(), usize::MAX as u64) {
                    Ok(n) => {
                        let py = match is_python {
                            Some(p) => {
                                let pv = chars_of(p);
                                let t = chars_of("true");
                                crate::text::chars_equal(&pv, &t)
                            },
                            None => false,
                        };
                        Ok(RunMode::StageWorker { index: n as usize, is_python: py })
                    },
                    Err(k) => Err(RilError::Fatal(int_error_message(k))),
                }
            },
        }
    }
}

/// Whether the command line asks for help (`-h` or `--help` anywhere).
pub fn wants_help(args: &Vec<String>) -> (b: bool)
    ensures
        b == exists|i: int|
            0 <= i < args@.len() && ((#[trigger] args@[i])@ == "-h"@ || args@[i]@ == "--help"@),
{
    let h = chars_of("-h");
    let help = chars_of("--help");
    let mut i: usize = 0;
    while i < args.len()
        invariant
            i <= args@.len(),
            h@ == "-h"@,
            help@ == "--help"@,
            forall|j: int|
                0 <= j < i ==> !((#[trigger] args@[j])@ == "-h"@ || args@[j]@ == "--help"@),
        decreases args@.len() - i,
    {
        let a = chars_of(args[i].as_str());
        if crate::text::chars_equal(&a, &h) || crate::text::chars_equal(&a, &help) {
            return true;
        }
        i = i + 1;
    }
    false
}

} // verus!
