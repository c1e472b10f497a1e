//! What the orchestrator decides about a pipeline before and while it runs:
//! the plan of which stage does what, how each stage's stderr is read, and
//! the report when a stage fails.
use vstd::prelude::*;

use crate::error::{error_line_text, escape_newlines, RilError, ERROR_PREFIX};
use crate::protocol::{
    batch_line_text, ms_text, parse_ms, timing_line_text, total_line_text, lemma_ms_roundtrip,
    BATCH_PREFIX, TIMING_PREFIX, TOTAL_PREFIX,
};
use crate::manager::initial_count;
use crate::stages::{BuiltinStage, ScriptStage, Stage, WorkerMode};
use crate::text::{
    chars_of, decimal, lemma_decimal_digits, lemma_parse_decimal, parse_uint, parse_uint_range,
    push_chars, push_decimal, push_range, push_str, IntErrorKind,
};

verus! {

// ---------------------------------------------------------------------------
// Stage kinds
// ---------------------------------------------------------------------------

pub open spec fn is_script(st: Stage) -> bool {
    st is Script
}

pub open spec fn is_load(st: Stage) -> bool {
    st matches Stage::Builtin(BuiltinStage::Load { .. })
}

pub open spec fn is_tee(st: Stage) -> bool {
    st matches Stage::Builtin(BuiltinStage::Tee { .. })
}

/// A script stage whose worker count is left to the orchestrator.
pub open spec fn is_unpinned_script(st: Stage) -> bool {
    st matches Stage::Script(ScriptStage { workers: WorkerMode::Default, .. })
}

/// The workers pinned with `xN` on a stage (none for other stages).
pub open spec fn pinned_of(st: Stage) -> nat {
    match st {
        Stage::Script(ScriptStage { workers: WorkerMode::Fixed(n), .. }) => n as nat,
        _ => 0,
    }
}

/// Workers are allocated automatically when some script stage is not pinned.
pub open spec fn spec_auto_mode(stages: Seq<Stage>) -> bool {
    exists|i: int| 0 <= i < stages.len() && is_unpinned_script(#[trigger] stages[i])
}

pub fn is_auto_mode(stages: &Vec<Stage>) -> (b: bool)
    ensures
        b == spec_auto_mode(stages@),
{
    let mut i: usize = 0;
    while i < stages.len()
        invariant
            i <= stages@.len(),
            forall|j: int| 0 <= j < i ==> !is_unpinned_script(#[trigger] stages@[j]),
        decreases stages@.len() - i,
    {
        if let Stage::Script(ScriptStage { workers: WorkerMode::Default, .. }) = &stages[i] {
            return true;
        }
        i = i + 1;
    }
    false
}

/// How a stage is named in messages: `load <path>`, `save <path>`, `tee <path>`,
/// or a script stage's path.
pub open spec fn stage_name_text(st: Stage) -> Seq<char> {
    match st {
        Stage::Builtin(BuiltinStage::Load { path, .. }) => "load "@ + path@,
        Stage::Builtin(BuiltinStage::Save { path }) => "save "@ + path@,
        Stage::Builtin(BuiltinStage::Tee { path }) => "tee "@ + path@,
        Stage::Script(s) => s.path@,
    }
}

pub fn stage_name(st: &Stage) -> (s: String)
    ensures
        s@ == stage_name_text(*st),
{
    let mut s = String::new();
    match st {
        Stage::Builtin(BuiltinStage::Load { path, .. }) => {
            push_str(&mut s, "load ");
            push_str(&mut s, path.as_str());
        },
        Stage::Builtin(BuiltinStage::Save { path }) => {
            push_str(&mut s, "save ");
            push_str(&mut s, path.as_str());
        },
        Stage::Builtin(BuiltinStage::Tee { path }) => {
            push_str(&mut s, "tee ");
            push_str(&mut s, path.as_str());
        },
        Stage::Script(sc) => {
            push_str(&mut s, sc.path.as_str());
        },
    }
    assert(s@ =~= stage_name_text(*st));
    s
}

// ---------------------------------------------------------------------------
// The plan
// ---------------------------------------------------------------------------

/// The indices of the script stages among the first `m`, in order.
pub open spec fn script_positions(s: Seq<Stage>, m: int) -> Seq<usize>
    decreases m,
{
    if m <= 0 {
        Seq::empty()
    } else {
        let p = script_positions(s, m - 1);
        if is_script(s[m - 1]) {
            p.push((m - 1) as usize)
        } else {
            p
        }
    }
}

/// Sum of the pinned worker counts of the first `m` stages.
pub open spec fn pinned_upto(s: Seq<Stage>, m: int) -> nat
    decreases m,
{
    if m <= 0 {
        0
    } else {
        pinned_upto(s, m - 1) + pinned_of(s[m - 1])
    }
}

/// The number of unpinned script stages among the first `m`.
pub open spec fn unpinned_upto(s: Seq<Stage>, m: int) -> nat
    decreases m,
{
    if m <= 0 {
        0
    } else {
        unpinned_upto(s, m - 1) + if is_unpinned_script(s[m - 1]) {
            1nat
        } else {
            0nat
        }
    }
}

/// How the orchestrator runs a pipeline.
pub struct PipelinePlan {
    /// Each stage's name, for messages.
    pub names: Vec<String>,
    /// The first `load` stage, whose stderr announces the number of batches.
    pub load_index: Option<usize>,
    /// The last stage that is not a `tee`, whose stderr reports finished batches.
    pub progress_index: Option<usize>,
    /// The script stages, in order.
    pub script_indices: Vec<usize>,
    /// Whether the orchestrator reads a stage's stderr (the load stage, the
    /// progress stage and the script stages); the others write to the terminal.
    pub capture_stderr: Vec<bool>,
    /// Whether a stage is profiled and then told its worker count (the unpinned
    /// script stages, when workers are allocated automatically).
    pub auto_alloc: Vec<bool>,
    /// Whether workers are allocated automatically.
    pub auto_mode: bool,
    /// How many stages report a time (the unpinned script stages).
    pub timed_stages: usize,
    /// The cores taken by pinned stages (at most `usize::MAX`).
    pub pinned_workers: usize,
}

/// The plan that `plan_pipeline` makes for `s`.
pub open spec fn plan_matches(p: PipelinePlan, s: Seq<Stage>) -> bool {
    let n = s.len();
    &&& p.names@.len() == n
    &&& forall|i: int| 0 <= i < n ==> (#[trigger] p.names@[i])@ == stage_name_text(s[i])
    &&& (p.load_index matches Some(i) ==> i < n && is_load(s[i as int]) && forall|j: int|
        0 <= j < i ==> !is_load(#[trigger] s[j]))
    &&& (p.load_index is None ==> forall|j: int| 0 <= j < n ==> !is_load(#[trigger] s[j]))
    &&& (p.progress_index matches Some(i) ==> i < n && !is_tee(s[i as int]) && forall|j: int|
        i < j < n ==> is_tee(#[trigger] s[j]))
    &&& (p.progress_index is None ==> forall|j: int| 0 <= j < n ==> is_tee(#[trigger] s[j]))
    &&& p.script_indices@ == script_positions(s, n as int)
    &&& p.auto_mode == spec_auto_mode(s)
    &&& p.capture_stderr@.len() == n
    &&& forall|i: int|
        0 <= i < n ==> #[trigger] p.capture_stderr@[i] == (is_script(s[i]) || p.load_index
            == Some(i as usize) || p.progress_index == Some(i as usize))
    &&& p.auto_alloc@.len() == n
    &&& forall|i: int|
        0 <= i < n ==> #[trigger] p.auto_alloc@[i] == (p.auto_mode && is_unpinned_script(s[i]))
    &&& p.timed_stages == unpinned_upto(s, n as int)
    &&& p.pinned_workers == if pinned_upto(s, n as int) <= usize::MAX {
        pinned_upto(s, n as int)
    } else {
        usize::MAX as nat
    }
}

proof fn lemma_unpinned_bound(s: Seq<Stage>, m: int)
    requires
        0 <= m <= s.len(),
    ensures
        unpinned_upto(s, m) <= m,
    decreases m,
{
    if m > 0 {
        lemma_unpinned_bound(s, m - 1);
    }
}

proof fn lemma_pinned_monotone(s: Seq<Stage>, m: int)
    requires
        0 < m,
    ensures
        pinned_upto(s, m - 1) <= pinned_upto(s, m),
{
}

proof fn lemma_auto_from_count(s: Seq<Stage>, m: int)
    requires
        0 <= m <= s.len(),
    ensures
        unpinned_upto(s, m) > 0 <==> exists|i: int| 0 <= i < m && is_unpinned_script(
            #[trigger] s[i],
        ),
    decreases m,
{
    if m > 0 {
        lemma_auto_from_count(s, m - 1);
        if is_unpinned_script(s[m - 1]) {
            assert(0 <= m - 1 < m && is_unpinned_script(s[m - 1]));
        } else {
            if exists|i: int| 0 <= i < m && is_unpinned_script(#[trigger] s[i]) {
                let i = choose|i: int| 0 <= i < m && is_unpinned_script(#[trigger] s[i]);
                assert(i < m - 1);
            }
        }
    }
}

/// Plans how to run `stages`; an empty pipeline is an error.
pub fn plan_pipeline(stages: &Vec<Stage>) -> (r: Result<PipelinePlan, RilError>)
    ensures
        r is Err <==> stages@.len() == 0,
        r matches Err(e) ==> (e matches RilError::Fatal(m) && m@ == "empty pipeline"@),
        r matches Ok(p) ==> plan_matches(p, stages@),
{
    let n = stages.len();
    if n == 0 {
        return Err(RilError::Fatal(crate::text::string_of(&chars_of("empty pipeline"))));
    }
    let ghost s = stages@;
    let mut names: Vec<String> = Vec::new();
    let mut load_index: Option<usize> = None;
    let mut progress_index: Option<usize> = None;
    let mut script_indices: Vec<usize> = Vec::new();
    let mut timed: usize = 0;
    let mut pinned: usize = 0;
    let mut i: usize = 0;
    while i < n
        invariant
            n == s.len(),
            s == stages@,
            i <= n,
            names@.len() == i,
            forall|k: int| 0 <= k < i ==> (#[trigger] names@[k])@ == stage_name_text(s[k]),
            load_index matches Some(l) ==> l < i && is_load(s[l as int]) && forall|j: int|
                0 <= j < l ==> !is_load(#[trigger] s[j]),
            load_index is None ==> forall|j: int| 0 <= j < i ==> !is_load(#[trigger] s[j]),
            progress_index matches Some(q) ==> q < i && !is_tee(s[q as int]) && forall|j: int|
                q < j < i ==> is_tee(#[trigger] s[j]),
            progress_index is None ==> forall|j: int| 0 <= j < i ==> is_tee(#[trigger] s[j]),
            script_indices@ == script_positions(s, i as int),
            timed == unpinned_upto(s, i as int),
            pinned == if pinned_upto(s, i as int) <= usize::MAX {
                pinned_upto(s, i as int)
            } else {
                usize::MAX as nat
            },
        decreases n - i,
    {
        let st = &stages[i];
        names.push(stage_name(st));
        proof {
            lemma_unpinned_bound(s, i + 1);
            lemma_pinned_monotone(s, i + 1);
        }
        match st {
            Stage::Builtin(BuiltinStage::Load { .. }) => {
                if load_index.is_none() {
                    load_index = Some(i);
                }
                progress_index = Some(i);
            },
            Stage::Builtin(BuiltinStage::Save { .. }) => {
                progress_index = Some(i);
            },
            Stage::Builtin(BuiltinStage::Tee { .. }) => {},
            Stage::Script(sc) => {
                progress_index = Some(i);
                script_indices.push(i);
                match sc.workers {
                    WorkerMode::Default => {
                        timed = timed + 1;
                    },
                    WorkerMode::Fixed(w) => {
                        pinned = if pinned > usize::MAX - w {
                            usize::MAX
                        } else {
                            pinned + w
                        };
                    },
                }
            },
        }
        i = i + 1;
    }
    let auto_mode = timed > 0;
    proof {
        lemma_auto_from_count(s, n as int);
    }
    let mut capture_stderr: Vec<bool> = Vec::new();
    let mut auto_alloc: Vec<bool> = Vec::new();
    i = 0;
    while i < n
        invariant
            n == s.len(),
            s == stages@,
            i <= n,
            auto_mode == spec_auto_mode(s),
            capture_stderr@.len() == i,
            auto_alloc@.len() == i,
            forall|k: int|
                0 <= k < i ==> #[trigger] capture_stderr@[k] == (is_script(s[k]) || load_index
                    == Some(k as usize) || progress_index == Some(k as usize)),
            forall|k: int|
                0 <= k < i ==> #[trigger] auto_alloc@[k] == (auto_mode && is_unpinned_script(
                    s[k],
                )),
        decreases n - i,
    {
        let st = &stages[i];
        let script = match st {
            Stage::Script(_) => true,
            _ => false,
        };
        let unpinned = match st {
            Stage::Script(ScriptStage { workers: WorkerMode::Default, .. }) => true,
            _ => false,
        };
        capture_stderr.push(script || load_index == Some(i) || progress_index == Some(i));
        auto_alloc.push(auto_mode && unpinned);
        i = i + 1;
    }
    Ok(
        PipelinePlan {
            names,
            load_index,
            progress_index,
            script_indices,
            capture_stderr,
            auto_alloc,
            auto_mode,
            timed_stages: timed,
            pinned_workers: pinned,
        },
    )
}

// ---------------------------------------------------------------------------
// Laws of the plan
// ---------------------------------------------------------------------------

/// A stage pinned with `xN` is left out of the automatic split: it is not
/// profiled or resized, and it starts with exactly `N` workers.
pub proof fn lemma_pinned_stage_keeps_count(p: PipelinePlan, s: Seq<Stage>, i: int, k: usize)
    requires
        plan_matches(p, s),
        0 <= i < s.len(),
        s[i] matches Stage::Script(sc) && sc.workers == WorkerMode::Fixed(k),
    ensures
        !p.auto_alloc@[i],
        initial_count(p.auto_alloc@[i], WorkerMode::Fixed(k)) == k,
{
    assert(p.auto_alloc@[i] == (p.auto_mode && is_unpinned_script(s[i])));
}

/// An untagged script stage makes the pipeline allocate automatically; it is
/// profiled, starting on a single worker, and reports one time.
pub proof fn lemma_unpinned_stage_profiled(p: PipelinePlan, s: Seq<Stage>, i: int)
    requires
        plan_matches(p, s),
        0 <= i < s.len(),
        is_unpinned_script(s[i]),
    ensures
        p.auto_mode,
        p.auto_alloc@[i],
        initial_count(p.auto_alloc@[i], WorkerMode::Default) == 1,
        p.timed_stages >= 1,
{
    assert(p.auto_alloc@[i] == (p.auto_mode && is_unpinned_script(s[i])));
    lemma_auto_from_count(s, s.len() as int);
}

/// A pipeline whose script stages are all pinned does no profiling: no stage
/// is allocated automatically and no stage reports a time.
pub proof fn lemma_all_pinned_no_profiling(p: PipelinePlan, s: Seq<Stage>)
    requires
        plan_matches(p, s),
        forall|i: int| 0 <= i < s.len() ==> !is_unpinned_script(#[trigger] s[i]),
    ensures
        !p.auto_mode,
        p.timed_stages == 0,
        forall|i: int| 0 <= i < s.len() ==> !(#[trigger] p.auto_alloc@[i]),
{
    lemma_auto_from_count(s, s.len() as int);
    assert forall|i: int| 0 <= i < s.len() implies !(#[trigger] p.auto_alloc@[i]) by {
        assert(p.auto_alloc@[i] == (p.auto_mode && is_unpinned_script(s[i])));
    }
}

// ---------------------------------------------------------------------------
// Reading a stage's stderr
// ---------------------------------------------------------------------------

/// What the orchestrator does with one line of a stage's stderr.
#[derive(Clone, Debug, PartialEq, Eq)]
pub enum MonitorEvent {
    /// Tell the progress display how many batches there are.
    Total(usize),
    /// Tell the progress display how many batches are done.
    Batch(usize),
    /// Pass on the stage's time per batch, in microseconds.
    Timing(u64),
    /// Write this line to the terminal's stderr.
    Print(String),
    /// Drop the line.
    Nothing,
}

/// The orchestrator's reader of one stage's stderr.
pub struct StderrMonitor {
    pub index: usize,
    pub name: String,
    /// The stage is the plan's load stage.
    pub is_load: bool,
    /// The stage is the plan's progress stage.
    pub is_progress: bool,
    /// The stage's time is wanted for the allocation.
    pub wants_timing: bool,
    /// The stage's time has been passed on already.
    pub timing_sent: bool,
}

pub open spec fn starts_with(s: Seq<char>, p: Seq<char>) -> bool {
    p.len() <= s.len() && s.take(p.len() as int) == p
}

/// The line with which the orchestrator relays a stage's error report.
pub open spec fn relayed_error_text(index: nat, name: Seq<char>, rest: Seq<char>) -> Seq<char> {
    "error in stage["@ + decimal(index) + "] `"@ + name + "`: "@ + rest
}

/// What a monitor does with `line`: a count only from the stage it concerns
/// and only when it reads as a number; a time only once and only when wanted;
/// an error report relayed with the stage's index and name; any other line
/// printed as it is.
pub open spec fn line_event(m: StderrMonitor, line: Seq<char>) -> MonitorEvent {
    if starts_with(line, TOTAL_PREFIX@) {
        match parse_uint(line.skip(TOTAL_PREFIX@.len() as int), usize::MAX as nat) {
            Ok(n) => if m.is_load {
                MonitorEvent::Total(n as usize)
            } else {
                MonitorEvent::Nothing
            },
            Err(_) => MonitorEvent::Nothing,
        }
    } else if starts_with(line, BATCH_PREFIX@) {
        match parse_uint(line.skip(BATCH_PREFIX@.len() as int), usize::MAX as nat) {
            Ok(n) => if m.is_progress {
                MonitorEvent::Batch(n as usize)
            } else {
                MonitorEvent::Nothing
            },
            Err(_) => MonitorEvent::Nothing,
        }
    } else if starts_with(line, TIMING_PREFIX@) {
        match parse_ms(line.skip(TIMING_PREFIX@.len() as int)) {
            Some(us) => if m.wants_timing && !m.timing_sent {
                MonitorEvent::Timing(us)
            } else {
                MonitorEvent::Nothing
            },
            None => MonitorEvent::Nothing,
        }
    } else {
        MonitorEvent::Nothing
    }
}

/// The text a monitor prints for `line`, when it prints it.
pub open spec fn printed_text(m: StderrMonitor, line: Seq<char>) -> Option<Seq<char>> {
    if starts_with(line, TOTAL_PREFIX@) || starts_with(line, BATCH_PREFIX@) || starts_with(
        line,
        TIMING_PREFIX@,
    ) {
        None
    } else if starts_with(line, ERROR_PREFIX@) {
        Some(relayed_error_text(m.index as nat, m.name@, line.skip(ERROR_PREFIX@.len() as int)))
    } else {
        Some(line)
    }
}

fn starts_with_at(v: &Vec<char>, p: &str) -> (r: Option<usize>)
    ensures
        r is Some <==> starts_with(v@, p@),
        r matches Some(k) ==> k == p@.len(),
{
    let pv = chars_of(p);
    if pv.len() > v.len() {
        return None;
    }
    let mut i: usize = 0;
    while i < pv.len()
        invariant
            pv@ == p@,
            pv@.len() <= v@.len(),
            i <= pv@.len(),
            forall|j: int| 0 <= j < i ==> v@[j] == pv@[j],
        decreases pv@.len() - i,
    {
        if v[i] != pv[i] {
            assert(v@.take(pv@.len() as int)[i as int] != p@[i as int]);
            return None;
        }
        i = i + 1;
    }
    assert(v@.take(pv@.len() as int) =~= p@);
    Some(pv.len())
}

impl StderrMonitor {
    /// A reader for stage `index` of a pipeline planned as `plan`.
    pub fn new(plan: &PipelinePlan, index: usize) -> (m: StderrMonitor)
        requires
            index < plan.names@.len(),
            index < plan.auto_alloc@.len(),
        ensures
            m.index == index,
            m.name@ == plan.names@[index as int]@,
            m.is_load == (plan.load_index == Some(index)),
            m.is_progress == (plan.progress_index == Some(index)),
            m.wants_timing == plan.auto_alloc@[index as int],
            !m.timing_sent,
    {
        let name = crate::text::string_of(&chars_of(plan.names[index].as_str()));
        StderrMonitor {
            index,
            name,
            is_load: plan.load_index == Some(index),
            is_progress: plan.progress_index == Some(index),
            wants_timing: plan.auto_alloc[index],
            timing_sent: false,
        }
    }

    /// Handles one line of the stage's stderr.
    pub fn on_line(&mut self, line: &str) -> (e: MonitorEvent)
        ensures
            final(self).index == old(self).index,
            final(self).name == old(self).name,
            final(self).is_load == old(self).is_load,
            final(self).is_progress == old(self).is_progress,
            final(self).wants_timing == old(self).wants_timing,
            final(self).timing_sent == (old(self).timing_sent || e is Timing),
            printed_text(*old(self), line@) matches Some(t) ==> (e matches MonitorEvent::Print(
                s,
            ) && s@ == t),
            printed_text(*old(self), line@) is None ==> e == line_event(*old(self), line@),
    {
        let v = chars_of(line);
        let n = v.len();
        if let Some(k) = starts_with_at(&v, TOTAL_PREFIX) {
            assert(v@.subrange(k as int, n as int) =~= line@.skip(TOTAL_PREFIX@.len() as int));
            return match parse_uint_range(&v, k, n, usize::MAX as u64) {
                Ok(c) => if self.is_load {
                    MonitorEvent::Total(c as usize)
                } else {
                    MonitorEvent::Nothing
                },
                Err(_) => MonitorEvent::Nothing,
            };
        }
        if let Some(k) = starts_with_at(&v, BATCH_PREFIX) {
            assert(v@.subrange(k as int, n as int) =~= line@.skip(BATCH_PREFIX@.len() as int));
            return match parse_uint_range(&v, k, n, usize::MAX as u64) {
                Ok(c) => if self.is_progress {
                    MonitorEvent::Batch(c as usize)
                } else {
                    MonitorEvent::Nothing
                },
                Err(_) => MonitorEvent::Nothing,
            };
        }
        if let Some(k) = starts_with_at(&v, TIMING_PREFIX) {
            assert(v@.subrange(k as int, n as int) =~= line@.skip(TIMING_PREFIX@.len() as int));
            return match crate::protocol::ms_of(&v, k, n) {
                Some(us) => if self.wants_timing && !self.timing_sent {
                    self.timing_sent = true;
                    MonitorEvent::Timing(us)
                } else {
                    MonitorEvent::Nothing
                },
                None => MonitorEvent::Nothing,
            };
        }
        if let Some(k) = starts_with_at(&v, ERROR_PREFIX) {
            let mut s = String::new();
            push_str(&mut s, "error in stage[");
            push_decimal(&mut s, self.index as u64);
            push_str(&mut s, "] `");
            push_str(&mut s, self.name.as_str());
            push_str(&mut s, "`: ");
            push_range(&mut s, &v, k, n);
            assert(v@.subrange(k as int, n as int) =~= line@.skip(ERROR_PREFIX@.len() as int));
            assert(s@ =~= relayed_error_text(
                self.index as nat,
                self.name@,
                line@.skip(ERROR_PREFIX@.len() as int),
            ));
            return MonitorEvent::Print(s);
        }
        MonitorEvent::Print(crate::text::string_of(&v))
    }
}

// ---------------------------------------------------------------------------
// Laws of the line protocol
// ---------------------------------------------------------------------------

/// A monitor reads the count that `batch_line` wrote, when it reads the
/// progress stage.
pub proof fn lemma_batch_line_read(m: StderrMonitor, n: usize)
    requires
        m.is_progress,
    ensures
        printed_text(m, batch_line_text(n as nat)) is None,
        line_event(m, batch_line_text(n as nat)) == MonitorEvent::Batch(n),
{
    reveal_strlit("RIL_TOTAL_BATCHES:");
    reveal_strlit("RIL_BATCH:");
    let line = batch_line_text(n as nat);
    lemma_decimal_digits(n as nat);
    lemma_parse_decimal(n as nat, usize::MAX as nat);
    assert(line[4] == 'B');
    assert(TOTAL_PREFIX@[4] == 'T');
    assert(!starts_with(line, TOTAL_PREFIX@)) by {
        if starts_with(line, TOTAL_PREFIX@) {
            assert(line.take(TOTAL_PREFIX@.len() as int)[4] == line[4]);
        }
    }
    assert(line.take(BATCH_PREFIX@.len() as int) =~= BATCH_PREFIX@);
    assert(line.skip(BATCH_PREFIX@.len() as int) =~= decimal(n as nat));
}

/// A monitor reads the count that `total_line` wrote, when it reads the load
/// stage.
pub proof fn lemma_total_line_read(m: StderrMonitor, n: usize)
    requires
        m.is_load,
    ensures
        printed_text(m, total_line_text(n as nat)) is None,
        line_event(m, total_line_text(n as nat)) == MonitorEvent::Total(n),
{
    reveal_strlit("RIL_TOTAL_BATCHES:");
    let line = total_line_text(n as nat);
    lemma_decimal_digits(n as nat);
    lemma_parse_decimal(n as nat, usize::MAX as nat);
    assert(line.take(TOTAL_PREFIX@.len() as int) =~= TOTAL_PREFIX@);
    assert(line.skip(TOTAL_PREFIX@.len() as int) =~= decimal(n as nat));
}

/// A monitor that waits for a stage's time reads the time that `timing_line`
/// wrote, to the microsecond.
pub proof fn lemma_timing_line_read(m: StderrMonitor, us: u64)
    requires
        m.wants_timing,
        !m.timing_sent,
    ensures
        printed_text(m, timing_line_text(us as nat)) is None,
        line_event(m, timing_line_text(us as nat)) == MonitorEvent::Timing(us),
{
    reveal_strlit("RIL_TOTAL_BATCHES:");
    reveal_strlit("RIL_BATCH:");
    reveal_strlit("RIL_TIMING:");
    let line = timing_line_text(us as nat);
    lemma_ms_roundtrip(us);
    assert(line[4] == 'T' && line[5] == 'I');
    assert(!starts_with(line, TOTAL_PREFIX@)) by {
        if starts_with(line, TOTAL_PREFIX@) {
            assert(line.take(TOTAL_PREFIX@.len() as int)[5] == line[5]);
        }
    }
    assert(!starts_with(line, BATCH_PREFIX@)) by {
        if starts_with(line, BATCH_PREFIX@) {
            assert(line.take(BATCH_PREFIX@.len() as int)[4] == line[4]);
        }
    }
    assert(line.take(TIMING_PREFIX@.len() as int) =~= TIMING_PREFIX@);
    assert(line.skip(TIMING_PREFIX@.len() as int) =~= ms_text(us as nat));
}

/// A monitor relays a stage's error report as one line naming the stage.
pub proof fn lemma_error_line_relayed(m: StderrMonitor, msg: Seq<char>)
    ensures
        printed_text(m, error_line_text(msg)) == Some(
            relayed_error_text(m.index as nat, m.name@, escape_newlines(msg)),
        ),
{
    reveal_strlit("RIL_TOTAL_BATCHES:");
    reveal_strlit("RIL_BATCH:");
    reveal_strlit("RIL_TIMING:");
    reveal_strlit("RIL_ERROR:");
    let line = error_line_text(msg);
    assert(line[4] == 'E');
    assert(!starts_with(line, TOTAL_PREFIX@)) by {
        if starts_with(line, TOTAL_PREFIX@) {
            assert(line.take(TOTAL_PREFIX@.len() as int)[4] == line[4]);
        }
    }
    assert(!starts_with(line, BATCH_PREFIX@)) by {
        if starts_with(line, BATCH_PREFIX@) {
            assert(line.take(BATCH_PREFIX@.len() as int)[4] == line[4]);
        }
    }
    assert(!starts_with(line, TIMING_PREFIX@)) by {
        if starts_with(line, TIMING_PREFIX@) {
            assert(line.take(TIMING_PREFIX@.len() as int)[4] == line[4]);
        }
    }
    assert(line.take(ERROR_PREFIX@.len() as int) =~= ERROR_PREFIX@);
    assert(line.skip(ERROR_PREFIX@.len() as int) =~= escape_newlines(msg));
}

// ---------------------------------------------------------------------------
// Failed stages
// ---------------------------------------------------------------------------

/// A signed integer in decimal.
pub open spec fn int_text(c: int) -> Seq<char> {
    if c < 0 {
        seq!['-'] + decimal((-c) as nat)
    } else {
        decimal(c as nat)
    }
}

/// The message for a stage that exited unsuccessfully with exit code `code`
/// (`None` when a signal ended it).
pub open spec fn exit_message_text(index: nat, name: Seq<char>, code: Option<i32>) -> Seq<char> {
    "stage["@ + decimal(index) + "] `"@ + name + "` exited with code "@ + match code {
        Some(c) => int_text(c as int),
        None => "signal"@,
    }
}

pub fn exit_message(index: usize, name: &str, code: Option<i32>) -> (s: String)
    ensures
        s@ == exit_message_text(index as nat, name@, code),
{
    let mut s = String::new();
    push_str(&mut s, "stage[");
    push_decimal(&mut s, index as u64);
    push_str(&mut s, "] `");
    push_str(&mut s, name);
    push_str(&mut s, "` exited with code ");
    match code {
        Some(c) => {
            if c < 0 {
                crate::text::push_char(&mut s, '-');
                let m: u64 = (-(c as i64)) as u64;
                push_decimal(&mut s, m);
            } else {
                push_decimal(&mut s, c as u64);
            }
        },
        None => {
            push_str(&mut s, "signal");
        },
    }
    assert(s@ =~= exit_message_text(index as nat, name@, code));
    s
}

} // verus!
