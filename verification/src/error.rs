//! The library's error type and the structured error line that stage
//! processes write to stderr for the orchestrator.
use vstd::prelude::*;

use crate::text::{decimal, push_char, push_decimal, push_str};

verus! {

/// What can go wrong in a pipeline run.
#[derive(Clone, Debug, PartialEq, Eq)]
pub enum RilError {
    /// The pipeline description could not be read.
    Parse(String),
    /// A stage failed.
    Stage { index: usize, name: String, inner: String },
    /// A worker of a stage failed on a batch.
    Worker { worker_index: usize, batch_index: usize, inner: String },
    /// Python code raised; the formatted traceback.
    Python { traceback: String },
    /// Anything else, with its message.
    Fatal(String),
}

/// Prefix of the line a stage process writes to stderr when it fails, so that
/// the orchestrator can tell it apart from other output.
pub const ERROR_PREFIX: &'static str = "RIL_ERROR:";

/// The text of each error, as the user reads it.
pub open spec fn error_text(e: RilError) -> Seq<char> {
    match e {
        RilError::Parse(msg) => "parse error: "@ + msg@,
        RilError::Stage { index, name, inner } => "stage["@ + decimal(index as nat) + "] `"@
            + name@ + "` failed: "@ + inner@,
        RilError::Worker { worker_index, batch_index, inner } => "worker["@ + decimal(
            worker_index as nat,
        ) + "] at batch "@ + decimal(batch_index as nat) + ": "@ + inner@,
        RilError::Python { traceback } => "python error:\n"@ + traceback@,
        RilError::Fatal(msg) => msg@,
    }
}

impl RilError {
    /// The error's text (what `Display` shows in the command-line tool).
    pub fn message(&self) -> (s: String)
        ensures
            s@ == error_text(*self),
    {
        let mut s = String::new();
        match self {
            RilError::Parse(msg) => {
                push_str(&mut s, "parse error: ");
                push_str(&mut s, msg.as_str());
            },
            RilError::Stage { index, name, inner } => {
                push_str(&mut s, "stage[");
                push_decimal(&mut s, *index as u64);
                push_str(&mut s, "] `");
                push_str(&mut s, name.as_str());
                push_str(&mut s, "` failed: ");
                push_str(&mut s, inner.as_str());
            },
            RilError::Worker { worker_index, batch_index, inner } => {
                push_str(&mut s, "worker[");
                push_decimal(&mut s, *worker_index as u64);
                push_str(&mut s, "] at batch ");
                push_decimal(&mut s, *batch_index as u64);
                push_str(&mut s, ": ");
                push_str(&mut s, inner.as_str());
            },
            RilError::Python { traceback } => {
                push_str(&mut s, "python error:\n");
                push_str(&mut s, traceback.as_str());
            },
            RilError::Fatal(msg) => {
                push_str(&mut s, msg.as_str());
            },
        }
        proof {
            assert(s@ =~= error_text(*self));
        }
        s
    }
}

/// `msg` with every line break written as the two characters `\` and `n`, so
/// that it fits on one line.
pub open spec fn escape_newlines(msg: Seq<char>) -> Seq<char>
    decreases msg.len(),
{
    if msg.len() == 0 {
        Seq::empty()
    } else {
        escape_newlines(msg.drop_last()) + if msg.last() == '\n' {
            seq!['\\', 'n']
        } else {
            seq![msg.last()]
        }
    }
}

/// The one-line error report that a failed stage process writes to stderr:
/// `RIL_ERROR:` followed by the message with its line breaks escaped.
pub open spec fn error_line_text(msg: Seq<char>) -> Seq<char> {
    ERROR_PREFIX@ + escape_newlines(msg)
}

/// Builds the error report line for `msg`.
pub fn error_line(msg: &str) -> (line: String)
    ensures
        line@ == error_line_text(msg@),
{
    let mut line = String::new();
    push_str(&mut line, ERROR_PREFIX);
    let chars = crate::text::chars_of(msg);
    let mut i: usize = 0;
    while i < chars.len()
        invariant
            i <= chars@.len(),
            chars@ == msg@,
            line@ == ERROR_PREFIX@ + escape_newlines(chars@.take(i as int)),
        decreases chars@.len() - i,
    {
        let c = chars[i];
        assert(chars@.take(i + 1).drop_last() =~= chars@.take(i as int));
        if c == '\n' {
            push_char(&mut line, '\\');
            push_char(&mut line, 'n');
            assert(line@ =~= ERROR_PREFIX@ + escape_newlines(chars@.take(i + 1)));
        } else {
            push_char(&mut line, c);
            assert(line@ =~= ERROR_PREFIX@ + escape_newlines(chars@.take(i + 1)));
        }
        i = i + 1;
    }
    assert(chars@.take(chars@.len() as int) =~= chars@);
    line
}

/// An escaped message holds no line break.
pub proof fn lemma_escape_newlines_one_line(msg: Seq<char>)
    ensures
        !escape_newlines(msg).contains('\n'),
    decreases msg.len(),
{
    if msg.len() > 0 {
        lemma_escape_newlines_one_line(msg.drop_last());
        let tail = if msg.last() == '\n' {
            seq!['\\', 'n']
        } else {
            seq![msg.last()]
        };
        let e = escape_newlines(msg.drop_last()) + tail;
        assert forall|j: int| 0 <= j < e.len() implies e[j] != '\n' by {
            if j < escape_newlines(msg.drop_last()).len() {
                assert(e[j] == escape_newlines(msg.drop_last())[j]);
                if e[j] == '\n' {
                    assert(escape_newlines(msg.drop_last()).contains('\n'));
                }
            }
        }
    }
}

} // verus!
