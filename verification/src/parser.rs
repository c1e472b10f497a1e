//! The pipeline description (`rilfile`) grammar and its parser.
//!
//! A pipeline is a list of stages separated by `|`. Each stage is a list of
//! words separated by whitespace:
//!
//! * `load <path>` or `load <path> +<rows>` (rows per batch, 1000 by default)
//! * `save <path>`
//! * `tee <path>`
//! * `<program> [x<workers>] [<key>=<value> ...]`
//!
//! A path is a non-empty word of ASCII letters, digits and `. _ - / ~`; a key is
//! a non-empty word of ASCII letters, digits and `_ -`; a value is any word.
use vstd::prelude::*;

use crate::error::RilError;
use crate::stages::{
    flags_view, stages_view, BuiltinStage, ScriptStage, SpecStage, Stage, WorkerMode,
};
use crate::text::{
    chars_equal, chars_of, decimal, digits_value, find_char, lemma_find_char, lemma_scan_all_digits,
    is_digit, is_digit_char, parse_uint, parse_uint_range,
    push_chars, push_decimal, push_range, push_str, scan_digits, split_chars, split_on,
    string_of, string_of_range, trim, trim_bounds, views, words, words_of, digit_val,
    IntErrorKind, is_ws, lemma_split_on_two, lemma_scan_words_append, lemma_scan_words_push_ws,
};

verus! {

// ---------------------------------------------------------------------------
// The grammar
// ---------------------------------------------------------------------------

pub open spec fn is_ascii_alnum(c: char) -> bool {
    ('a' <= c && c <= 'z') || ('A' <= c && c <= 'Z') || ('0' <= c && c <= '9')
}

pub open spec fn is_path_char(c: char) -> bool {
    is_ascii_alnum(c) || c == '.' || c == '_' || c == '-' || c == '/' || c == '~'
}

pub open spec fn is_key_char(c: char) -> bool {
    is_ascii_alnum(c) || c == '_' || c == '-'
}

/// A word that names a file or a program.
pub open spec fn is_path(w: Seq<char>) -> bool {
    w.len() > 0 && forall|j: int| 0 <= j < w.len() ==> is_path_char(#[trigger] w[j])
}

/// A word made of `tag` and then at least one digit (`+500`, `x4`).
pub open spec fn is_count(w: Seq<char>, tag: char) -> bool {
    w.len() >= 2 && w[0] == tag && forall|j: int| 1 <= j < w.len() ==> is_digit(#[trigger] w[j])
}

/// The number that a count word (`+500`, `x4`) gives.
pub open spec fn count_value(w: Seq<char>) -> nat {
    digits_value(w.drop_first())
}

/// A `key=value` flag: the key is what stands before the first `=`.
pub open spec fn spec_flag(w: Seq<char>) -> Option<(Seq<char>, Seq<char>)> {
    match find_char(w, '=') {
        Some(e) => if e > 0 && forall|j: int| 0 <= j < e ==> is_key_char(#[trigger] w[j]) {
            Some((w.take(e as int), w.skip(e + 1int)))
        } else {
            None
        },
        None => None,
    }
}

/// Rows per batch when `load` gives none.
pub const DEFAULT_BATCH_SIZE: usize = 1000;

/// Whether a script stage's second word pins its worker count.
pub open spec fn is_pinned(ws: Seq<Seq<char>>) -> bool {
    ws.len() >= 2 && is_count(ws[1], 'x')
}

/// Index of a script stage's first flag word.
pub open spec fn first_flag(ws: Seq<Seq<char>>) -> int {
    if is_pinned(ws) {
        2
    } else {
        1
    }
}

/// The stage that the words `ws` describe, if they describe one.
pub open spec fn spec_stage(ws: Seq<Seq<char>>) -> Option<SpecStage> {
    if ws.len() == 0 {
        None
    } else if ws[0] == "load"@ {
        if ws.len() == 2 && is_path(ws[1]) {
            Some(SpecStage::Load { path: ws[1], batch_size: DEFAULT_BATCH_SIZE as nat })
        } else if ws.len() == 3 && is_path(ws[1]) && is_count(ws[2], '+') {
            Some(SpecStage::Load { path: ws[1], batch_size: count_value(ws[2]) })
        } else {
            None
        }
    } else if ws[0] == "save"@ {
        if ws.len() == 2 && is_path(ws[1]) {
            Some(SpecStage::Save { path: ws[1] })
        } else {
            None
        }
    } else if ws[0] == "tee"@ {
        if ws.len() == 2 && is_path(ws[1]) {
            Some(SpecStage::Tee { path: ws[1] })
        } else {
            None
        }
    } else if is_path(ws[0]) {
        let first = first_flag(ws);
        if forall|k: int| first <= k < ws.len() ==> (#[trigger] spec_flag(ws[k])) is Some {
            Some(
                SpecStage::Script {
                    path: ws[0],
                    workers: if is_pinned(ws) {
                        Some(count_value(ws[1]))
                    } else {
                        None
                    },
                    flags: Seq::new(
                        (ws.len() - first) as nat,
                        |k: int| spec_flag(ws[k + first]).unwrap(),
                    ),
                },
            )
        } else {
            None
        }
    } else {
        None
    }
}

/// The text of each stage of `s`.
pub open spec fn stage_texts(s: Seq<char>) -> Seq<Seq<char>> {
    split_on(s, '|')
}

/// Whether the `k`-th stage text of `s` describes a stage.
pub open spec fn stage_ok(s: Seq<char>, k: int) -> bool {
    spec_stage(words(stage_texts(s)[k])) is Some
}

/// The pipeline that `s` describes, if it describes one.
pub open spec fn spec_parse(s: Seq<char>) -> Option<Seq<SpecStage>> {
    let texts = stage_texts(s);
    if forall|k: int| 0 <= k < texts.len() ==> #[trigger] stage_ok(s, k) {
        Some(Seq::new(texts.len(), |k: int| spec_stage(words(texts[k])).unwrap()))
    } else {
        None
    }
}

/// Whether the counts of a stage fit in a machine word.
pub open spec fn stage_fits(st: SpecStage) -> bool {
    match st {
        SpecStage::Load { batch_size, .. } => batch_size <= usize::MAX,
        SpecStage::Script { workers, .. } => workers matches Some(n) ==> n <= usize::MAX,
        _ => true,
    }
}

/// Whether every count in the pipeline that `s` describes fits in a machine word.
pub open spec fn counts_fit(s: Seq<char>) -> bool {
    spec_parse(s) matches Some(st) ==> forall|k: int| 0 <= k < st.len() ==> stage_fits(
        #[trigger] st[k],
    )
}

/// The index of the first stage text of `s` that describes no stage.
pub open spec fn first_bad_stage(s: Seq<char>) -> int {
    choose|k: int|
        0 <= k < stage_texts(s).len() && !stage_ok(s, k) && forall|j: int|
            0 <= j < k ==> #[trigger] stage_ok(s, j)
}

/// The message for a pipeline that does not parse: it names the first stage
/// that is not a stage, by position (from 1) and by text.
pub open spec fn parse_error_text(s: Seq<char>) -> Seq<char> {
    let k = first_bad_stage(s);
    "stage "@ + decimal((k + 1) as nat) + ": expected pipeline stage, found `"@ + trim(
        stage_texts(s)[k],
    ) + "`"@
}

// ---------------------------------------------------------------------------
// Lemmas on numbers
// ---------------------------------------------------------------------------

/// The value of a count word, or `None` when it does not fit in a `usize`.
fn count_of(w: &Vec<char>) -> (r: Option<usize>)
    requires
        is_count(w@, w@[0]),
    ensures
        r matches Some(n) ==> n == count_value(w@),
        r is None ==> count_value(w@) > usize::MAX,
{
    let ghost d = w@.subrange(1, w@.len() as int);
    assert(d =~= w@.drop_first());
    assert forall|j: int| 0 <= j < d.len() implies is_digit(#[trigger] d[j]) by {
        assert(d[j] == w@[j + 1]);
    }
    proof {
        lemma_scan_all_digits(d, 0, usize::MAX as nat);
        if d[0] == '+' {
            assert(is_digit(d[0]));
        }
    }
    match parse_uint_range(w, 1, w.len(), usize::MAX as u64) {
        Ok(n) => Some(n as usize),
        Err(_) => None,
    }
}

// ---------------------------------------------------------------------------
// Word predicates
// ---------------------------------------------------------------------------

fn is_ascii_alnum_char(c: char) -> (b: bool)
    ensures
        b == is_ascii_alnum(c),
{
    ('a' <= c && c <= 'z') || ('A' <= c && c <= 'Z') || ('0' <= c && c <= '9')
}

fn is_path_word(w: &Vec<char>) -> (b: bool)
    ensures
        b == is_path(w@),
{
    if w.len() == 0 {
        return false;
    }
    let mut i: usize = 0;
    while i < w.len()
        invariant
            i <= w@.len(),
            forall|j: int| 0 <= j < i ==> is_path_char(#[trigger] w@[j]),
        decreases w@.len() - i,
    {
        let c = w[i];
        if !(is_ascii_alnum_char(c) || c == '.' || c == '_' || c == '-' || c == '/' || c == '~') {
            return false;
        }
        i = i + 1;
    }
    true
}

fn is_count_word(w: &Vec<char>, tag: char) -> (b: bool)
    ensures
        b == is_count(w@, tag),
{
    if w.len() < 2 || w[0] != tag {
        return false;
    }
    let mut i: usize = 1;
    while i < w.len()
        invariant
            1 <= i <= w@.len(),
            forall|j: int| 1 <= j < i ==> is_digit(#[trigger] w@[j]),
        decreases w@.len() - i,
    {
        if !is_digit_char(w[i]) {
            return false;
        }
        i = i + 1;
    }
    true
}

fn word_is(w: &Vec<char>, lit: &str) -> (b: bool)
    ensures
        b == (w@ == lit@),
{
    let l = chars_of(lit);
    chars_equal(w, &l)
}

/// The `key=value` flag that `w` is, if it is one.
#[verifier::loop_isolation(false)]
fn flag_of(w: &Vec<char>) -> (r: Option<(String, String)>)
    ensures
        r matches Some(p) ==> spec_flag(w@) == Some((p.0@, p.1@)),
        r is None ==> spec_flag(w@) is None,
{
    let mut e: usize = 0;
    while e < w.len() && w[e] != '='
        invariant
            e <= w@.len(),
            forall|j: int| 0 <= j < e ==> w@[j] != '=',
        decreases w@.len() - e,
    {
        e = e + 1;
    }
    proof {
        lemma_find_char(w@, '=', e as int);
    }
    if e == w.len() || e == 0 {
        return None;
    }
    let mut i: usize = 0;
    while i < e
        invariant
            i <= e < w@.len(),
            forall|j: int| 0 <= j < i ==> is_key_char(#[trigger] w@[j]),
        decreases e - i,
    {
        let c = w[i];
        if !(is_ascii_alnum_char(c) || c == '_' || c == '-') {
            assert(!is_key_char(w@[i as int]));
            return None;
        }
        i = i + 1;
    }
    let key = string_of_range(w, 0, e);
    let value = string_of_range(w, e + 1, w.len());
    assert(w@.subrange(0, e as int) =~= w@.take(e as int));
    assert(w@.subrange(e + 1, w@.len() as int) =~= w@.skip(e + 1));
    Some((key, value))
}

// ---------------------------------------------------------------------------
// Stages
// ---------------------------------------------------------------------------

/// What the words of one stage text amount to.
enum StageScan {
    Valid(Stage),
    Invalid,
    /// A stage whose counts do not fit in a machine word.
    TooLarge,
}

#[verifier::loop_isolation(false)]
fn scan_stage(ws: &Vec<Vec<char>>) -> (r: StageScan)
    ensures
        r matches StageScan::Valid(st) ==> spec_stage(views(ws@)) == Some(st@) && stage_fits(
            st@,
        ),
        r is Invalid ==> spec_stage(views(ws@)) is None,
        r is TooLarge ==> (spec_stage(views(ws@)) matches Some(x) && !stage_fits(x)),
{
    let ghost v = views(ws@);
    let n = ws.len();
    if n == 0 {
        return StageScan::Invalid;
    }
    assert(v[0] == ws@[0]@);
    if word_is(&ws[0], "load") {
        if (n == 2 || n == 3) && is_path_word(&ws[1]) {
            assert(v[1] == ws@[1]@);
            let path = string_of(&ws[1]);
            if n == 2 {
                return StageScan::Valid(
                    Stage::Builtin(BuiltinStage::Load { path, batch_size: DEFAULT_BATCH_SIZE }),
                );
            }
            assert(v[2] == ws@[2]@);
            if is_count_word(&ws[2], '+') {
                match count_of(&ws[2]) {
                    Some(rows) => {
                        return StageScan::Valid(
                            Stage::Builtin(BuiltinStage::Load { path, batch_size: rows }),
                        );
                    },
                    None => {
                        return StageScan::TooLarge;
                    },
                }
            }
        }
        return StageScan::Invalid;
    }
    if word_is(&ws[0], "save") {
        if n == 2 && is_path_word(&ws[1]) {
            assert(v[1] == ws@[1]@);
            return StageScan::Valid(Stage::Builtin(BuiltinStage::Save { path: string_of(&ws[1]) }));
        }
        return StageScan::Invalid;
    }
    if word_is(&ws[0], "tee") {
        if n == 2 && is_path_word(&ws[1]) {
            assert(v[1] == ws@[1]@);
            return StageScan::Valid(Stage::Builtin(BuiltinStage::Tee { path: string_of(&ws[1]) }));
        }
        return StageScan::Invalid;
    }
    if !is_path_word(&ws[0]) {
        return StageScan::Invalid;
    }
    let pinned = n >= 2 && is_count_word(&ws[1], 'x');
    if n >= 2 {
        assert(v[1] == ws@[1]@);
    }
    assert(pinned == is_pinned(v));
    let first: usize = if pinned {
        2
    } else {
        1
    };
    let ghost flag_seq = Seq::new(
        (v.len() - first) as nat,
        |k: int| spec_flag(v[k + first]).unwrap(),
    );
    let mut flags: Vec<(String, String)> = Vec::new();
    let mut k = first;
    while k < n
        invariant
            first <= k <= n,
            n == ws@.len(),
            v == views(ws@),
            first == first_flag(v),
            forall|j: int| first <= j < k ==> (#[trigger] spec_flag(v[j])) is Some,
            flags@.len() == k - first,
            flags_view(flags@) =~= flag_seq.take(k - first),
            flag_seq == Seq::new(
                (v.len() - first) as nat,
                |k: int| spec_flag(v[k + first]).unwrap(),
            ),
        decreases n - k,
    {
        assert(v[k as int] == ws@[k as int]@);
        match flag_of(&ws[k]) {
            Some(p) => {
                let ghost before = flags@;
                flags.push(p);
                assert(flags_view(flags@) =~= flags_view(before).push((p.0@, p.1@)));
                assert(flag_seq[k - first] == spec_flag(v[k as int]).unwrap());
                assert(flag_seq.take(k + 1 - first) =~= flag_seq.take(k - first).push(
                    flag_seq[k - first],
                ));
            },
            None => {
                assert(spec_flag(v[k as int]) is None);
                assert(!(forall|j: int|
                    first_flag(v) <= j < v.len() ==> (#[trigger] spec_flag(v[j])) is Some));
                return StageScan::Invalid;
            },
        }
        k = k + 1;
    }
    assert(flag_seq.take(n - first) =~= flag_seq);
    let workers = if pinned {
        match count_of(&ws[1]) {
            Some(w) => WorkerMode::Fixed(w),
            None => {
                return StageScan::TooLarge;
            },
        }
    } else {
        WorkerMode::Default
    };
    let path = string_of(&ws[0]);
    StageScan::Valid(Stage::Script(ScriptStage { path, flags, workers }))
}

// ---------------------------------------------------------------------------
// Pipelines
// ---------------------------------------------------------------------------

enum PipelineScan {
    Parsed(Vec<Stage>),
    Rejected(String),
    TooLarge,
}

fn scan_pipeline(input: &str) -> (r: PipelineScan)
    ensures
        r matches PipelineScan::Parsed(v) ==> spec_parse(input@) == Some(stages_view(v@))
            && counts_fit(input@),
        r matches PipelineScan::Rejected(m) ==> spec_parse(input@) is None && m@
            == parse_error_text(input@),
        r is TooLarge ==> !counts_fit(input@),
{
    let chars = chars_of(input);
    let texts = split_chars(&chars, '|');
    let ghost s = input@;
    assert(views(texts@) == stage_texts(s));
    let mut stages: Vec<Stage> = Vec::new();
    let mut too_large = false;
    let ghost bad: int = -1;
    let mut k: usize = 0;
    while k < texts.len()
        invariant
            k <= texts@.len(),
            views(texts@) == stage_texts(s),
            s == input@,
            forall|j: int| 0 <= j < k ==> #[trigger] stage_ok(s, j),
            !too_large ==> stages@.len() == k,
            !too_large ==> forall|j: int|
                0 <= j < k ==> Some((#[trigger] stages@[j])@) == spec_stage(
                    words(stage_texts(s)[j]),
                ),
            !too_large ==> forall|j: int| 0 <= j < k ==> stage_fits(#[trigger] stages@[j]@),
            too_large ==> 0 <= bad < k && !stage_fits(
                spec_stage(words(stage_texts(s)[bad])).unwrap(),
            ),
        decreases texts@.len() - k,
    {
        let ws = words_of(&texts[k]);
        assert(texts@[k as int]@ == stage_texts(s)[k as int]);
        match scan_stage(&ws) {
            StageScan::Valid(st) => {
                if !too_large {
                    stages.push(st);
                }
            },
            StageScan::Invalid => {
                let msg = rejection(&texts[k], k);
                proof {
                    assert(!stage_ok(s, k as int));
                    let c = first_bad_stage(s);
                    assert(0 <= c < stage_texts(s).len() && !stage_ok(s, c) && forall|j: int|
                        0 <= j < c ==> #[trigger] stage_ok(s, j));
                    if c < k {
                        assert(stage_ok(s, c));
                    }
                    if c > k {
                        assert(stage_ok(s, k as int));
                    }
                }
                return PipelineScan::Rejected(msg);
            },
            StageScan::TooLarge => {
                proof {
                    bad = k as int;
                }
                too_large = true;
            },
        }
        k = k + 1;
    }
    let ghost expected = Seq::new(
        stage_texts(s).len(),
        |j: int| spec_stage(words(stage_texts(s)[j])).unwrap(),
    );
    assert(spec_parse(s) == Some(expected));
    if too_large {
        assert(expected[bad] == spec_stage(words(stage_texts(s)[bad])).unwrap());
        assert(!stage_fits(expected[bad]));
        assert(!counts_fit(s)) by {
            let st = spec_parse(s).unwrap();
            assert(st == expected);
            assert(!stage_fits(st[bad]));
        }
        return PipelineScan::TooLarge;
    }
    assert(stages_view(stages@) =~= expected);
    PipelineScan::Parsed(stages)
}

/// The message naming stage `k` (counted from 0) with text `text`.
fn rejection(text: &Vec<char>, k: usize) -> (m: String)
    requires
        k < usize::MAX,
    ensures
        m@ == "stage "@ + decimal((k + 1) as nat) + ": expected pipeline stage, found `"@ + trim(
            text@,
        ) + "`"@,
{
    let mut m = String::new();
    push_str(&mut m, "stage ");
    push_decimal(&mut m, (k + 1) as u64);
    push_str(&mut m, ": expected pipeline stage, found `");
    let (lo, hi) = trim_bounds(text);
    push_range(&mut m, text, lo, hi);
    push_str(&mut m, "`");
    assert(m@ =~= "stage "@ + decimal((k + 1) as nat) + ": expected pipeline stage, found `"@
        + trim(text@) + "`"@);
    m
}

/// Whether every count in the pipeline that `input` describes fits in a machine
/// word (only then may `parse` be called on it).
pub fn counts_fit_in(input: &str) -> (b: bool)
    ensures
        b == counts_fit(input@),
{
    match scan_pipeline(input) {
        PipelineScan::TooLarge => false,
        _ => true,
    }
}

/// Reads a pipeline description.
///
/// On success, the stages are exactly those the grammar gives for `input`, in
/// order; otherwise the error names the first text between `|` that is not a
/// stage.
pub fn parse(input: &str) -> (r: Result<Vec<Stage>, RilError>)
    requires
        counts_fit(input@),
    ensures
        r is Ok <==> spec_parse(input@) is Some,
        r matches Ok(v) ==> spec_parse(input@) == Some(stages_view(v@)),
        r matches Err(e) ==> (e matches RilError::Parse(m) && m@ == parse_error_text(input@)),
{
    match scan_pipeline(input) {
        PipelineScan::Parsed(v) => Ok(v),
        PipelineScan::Rejected(m) => Err(RilError::Parse(m)),
        PipelineScan::TooLarge => Err(RilError::Parse(String::new())),
    }
}

/// A file name: a non-empty word of ASCII letters, digits and `. _ - / ~`.
pub open spec fn is_file_word(w: Seq<char>) -> bool {
    w.len() > 0 && forall|j: int|
        0 <= j < w.len() ==> {
            let c = #[trigger] w[j];
            ('a' <= c && c <= 'z') || ('A' <= c && c <= 'Z') || ('0' <= c && c <= '9') || c == '.'
                || c == '_' || c == '-' || c == '/' || c == '~'
        }
}

proof fn lemma_file_word_chars(w: Seq<char>)
    requires
        is_file_word(w),
    ensures
        forall|j: int| 0 <= j < w.len() ==> !is_ws(#[trigger] w[j]) && w[j] != '|',
        is_path(w),
{
    assert forall|j: int| 0 <= j < w.len() implies !is_ws(#[trigger] w[j]) && w[j] != '|'
        && is_path_char(w[j]) by {
        let c = w[j];
        assert(('a' <= c && c <= 'z') || ('A' <= c && c <= 'Z') || ('0' <= c && c <= '9') || c
            == '.' || c == '_' || c == '-' || c == '/' || c == '~');
    }
}

/// `load P | save Q` is read as a load of `P` in batches of 1000 rows and a
/// save to `Q`, for every pair of file names `P` and `Q`.
pub proof fn lemma_load_save_parses(p: Seq<char>, q: Seq<char>)
    requires
        is_file_word(p),
        is_file_word(q),
    ensures
        spec_parse(seq!['l', 'o', 'a', 'd', ' '] + p + seq![' ', '|', ' ', 's', 'a', 'v', 'e', ' '] + q)
            == Some(seq![SpecStage::Load { path: p, batch_size: 1000 }, SpecStage::Save { path: q }]),
{
    let s = seq!['l', 'o', 'a', 'd', ' '] + p + seq![' ', '|', ' ', 's', 'a', 'v', 'e', ' '] + q;
    let e = Seq::<char>::empty();
    let lw = seq!['l', 'o', 'a', 'd'];
    let sv = seq!['s', 'a', 'v', 'e'];
    let a = (lw.push(' ') + p).push(' ');
    let b = (e.push(' ') + sv).push(' ') + q;
    lemma_file_word_chars(p);
    lemma_file_word_chars(q);
    assert(is_ws(' '));
    assert(s =~= a.push('|') + b);
    assert forall|j: int| 0 <= j < a.len() implies a[j] != '|' by {
        if 5 <= j < 5 + p.len() {
            assert(a[j] == p[j - 5]);
        }
    }
    assert forall|j: int| 0 <= j < b.len() implies b[j] != '|' by {
        if 6 <= j {
            assert(b[j] == q[j - 6]);
        }
    }
    lemma_split_on_two(a, b, '|');
    assert(stage_texts(s) == seq![a, b]);
    // The words of the first stage.
    assert(forall|j: int| 0 <= j < lw.len() ==> !is_ws(lw[j]));
    lemma_scan_words_append(e, lw);
    assert(e + lw =~= lw);
    lemma_scan_words_push_ws(lw, ' ');
    lemma_scan_words_append(lw.push(' '), p);
    assert(Seq::<char>::empty() + p =~= p);
    lemma_scan_words_push_ws(lw.push(' ') + p, ' ');
    assert(words(a) =~= seq![lw, p]);
    // The words of the second stage.
    lemma_scan_words_push_ws(e, ' ');
    assert(forall|j: int| 0 <= j < sv.len() ==> !is_ws(sv[j]));
    lemma_scan_words_append(e.push(' '), sv);
    lemma_scan_words_push_ws(e.push(' ') + sv, ' ');
    lemma_scan_words_append((e.push(' ') + sv).push(' '), q);
    assert(words(b) =~= seq![sv, q]);
    // The stages.
    reveal_strlit("load");
    reveal_strlit("save");
    assert(lw =~= "load"@);
    assert(sv =~= "save"@);
    assert(sv != "load"@) by {
        assert(sv[0] != "load"@[0]);
    }
    assert(spec_stage(words(a)) == Some(SpecStage::Load { path: p, batch_size: 1000 }));
    assert(spec_stage(words(b)) == Some(SpecStage::Save { path: q }));
    assert(stage_ok(s, 0));
    assert(stage_ok(s, 1));
    assert(forall|k: int| 0 <= k < stage_texts(s).len() ==> #[trigger] stage_ok(s, k));
    assert(spec_parse(s) == Some(
        Seq::new(2, |k: int| spec_stage(words(stage_texts(s)[k])).unwrap()),
    ));
    assert(Seq::new(2, |k: int| spec_stage(words(stage_texts(s)[k])).unwrap()) =~= seq![
        SpecStage::Load { path: p, batch_size: 1000 },
        SpecStage::Save { path: q },
    ]);
}

} // verus!
