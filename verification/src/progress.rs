//! The progress line that the orchestrator redraws on stderr while a pipeline
//! runs: a bar with percentage and time left when the number of batches is
//! known, a spinner otherwise, and a summary at the end.
use vstd::prelude::*;

use crate::text::{decimal, push_char, push_decimal, push_decimal_wide, push_str};

verus! {

/// What the orchestrator learns from the stages about progress.
#[derive(Clone, Copy, Debug, PartialEq, Eq, Structural)]
pub enum Msg {
    /// How many batches there are in all.
    Total(usize),
    /// How many batches are done.
    Batch(usize),
}

/// What the progress display knows.
#[derive(Clone, Copy, Debug, PartialEq, Eq, Structural)]
pub struct ProgressState {
    pub total: Option<usize>,
    pub current: usize,
}

impl ProgressState {
    /// Nothing known yet.
    pub fn new() -> (s: ProgressState)
        ensures
            s.total is None,
            s.current == 0,
    {
        ProgressState { total: None, current: 0 }
    }

    /// Takes in one message: the latest total and the latest count win.
    pub fn apply(&mut self, msg: Msg)
        ensures
            *final(self) == match msg {
                Msg::Total(n) => ProgressState { total: Some(n), current: old(self).current },
                Msg::Batch(n) => ProgressState { total: old(self).total, current: n },
            },
    {
        match msg {
            Msg::Total(n) => {
                self.total = Some(n);
            },
            Msg::Batch(n) => {
                self.current = n;
            },
        }
    }
}

/// Width of the bar, in cells.
pub const BAR_WIDTH: usize = 22;

// ---------------------------------------------------------------------------
// Rounding
// ---------------------------------------------------------------------------

/// `num / den` rounded to the nearest integer, halves to the even neighbour
/// (as numbers are formatted with no decimals).
pub open spec fn round_half_even(num: nat, den: nat) -> nat {
    let q = num / den;
    let r = num % den;
    if 2 * r > den {
        q + 1
    } else if 2 * r < den {
        q
    } else if q % 2 == 0 {
        q
    } else {
        q + 1
    }
}

/// `num / den` rounded to the nearest integer, halves up.
pub open spec fn round_half_up(num: nat, den: nat) -> nat {
    (2 * num + den) / (2 * den)
}

fn round_half_even_of(num: u128, den: u128) -> (r: u128)
    requires
        den > 0,
        den <= 0xFFFF_FFFF_FFFF_FFFFu128,
        num <= 0x3FFF_FFFF_FFFF_FFFF_FFFF_FFFF_FFFF_FFFFu128,
    ensures
        r == round_half_even(num as nat, den as nat),
{
    let q = num / den;
    let rem = num % den;
    proof {
        vstd::arithmetic::div_mod::lemma_mod_pos_bound(num as int, den as int);
    }
    assert(q <= num) by (nonlinear_arith)
        requires
            den > 0,
            q == num / den,
    ;
    if 2 * rem > den {
        q + 1
    } else if 2 * rem < den {
        q
    } else if q % 2 == 0 {
        q
    } else {
        q + 1
    }
}

// ---------------------------------------------------------------------------
// Durations
// ---------------------------------------------------------------------------

/// A duration of `num / den` seconds: whole seconds under a minute, else
/// minutes and seconds.
pub open spec fn duration_text(num: nat, den: nat) -> Seq<char> {
    if num < 60 * den {
        decimal(round_half_even(num, den)) + "s"@
    } else {
        decimal(num / (60 * den)) + "m"@ + decimal((num / den) % 60) + "s"@
    }
}

/// The duration of `elapsed_ms` milliseconds.
pub fn duration_of_ms(elapsed_ms: u64) -> (s: String)
    ensures
        s@ == duration_text(elapsed_ms as nat, 1000),
{
    let mut s = String::new();
    push_duration(&mut s, elapsed_ms as u128, 1000);
    assert(s@ =~= duration_text(elapsed_ms as nat, 1000));
    s
}

/// The estimated time left, when `current` of `total` batches took
/// `elapsed_ms`: none (`--`) before the first batch or the first half second,
/// else the time so far scaled to the batches left.
pub open spec fn eta_text(current: nat, total: nat, elapsed_ms: nat) -> Seq<char> {
    if current == 0 || elapsed_ms < 500 {
        "--"@
    } else {
        duration_text(((total - current) * elapsed_ms) as nat, current * 1000)
    }
}

fn push_eta(s: &mut String, current: usize, total: usize, elapsed_ms: u64)
    requires
        current > total ==> elapsed_ms < 500,
    ensures
        final(s)@ == old(s)@ + eta_text(current as nat, total as nat, elapsed_ms as nat),
{
    if current == 0 || elapsed_ms < 500 {
        push_str(s, "--");
        assert(final(s)@ =~= old(s)@ + eta_text(current as nat, total as nat, elapsed_ms as nat));
        return;
    }
    let left = (total - current) as u128;
    assert(left * elapsed_ms as u128 <= 0xFFFF_FFFF_FFFF_FFFFu128 * 0xFFFF_FFFF_FFFF_FFFFu128) by (
    nonlinear_arith)
        requires
            left <= 0xFFFF_FFFF_FFFF_FFFFu128,
            elapsed_ms <= 0xFFFF_FFFF_FFFF_FFFFu128,
    ;
    let num = left * elapsed_ms as u128;
    let den = current as u128 * 1000;
    push_duration(s, num, den);
    assert(final(s)@ =~= old(s)@ + eta_text(current as nat, total as nat, elapsed_ms as nat));
}

/// Writes `duration_text(num, den)`.
fn push_duration(s: &mut String, num: u128, den: u128)
    requires
        den > 0,
        den <= 0xFFFF_FFFF_FFFF_FFFFu128 * 1000,
        num <= 0xFFFF_FFFF_FFFF_FFFFu128 * 0xFFFF_FFFF_FFFF_FFFFu128,
    ensures
        final(s)@ == old(s)@ + duration_text(num as nat, den as nat),
{
    if num / den < 60 {
        // Under a minute: whole part and remainder decide the rounding.
        let q = num / den;
        let r = num % den;
        assert(num < 60 * den) by (nonlinear_arith)
            requires
                q == num / den,
                q < 60,
                den > 0,
        ;
        proof {
            vstd::arithmetic::div_mod::lemma_fundamental_div_mod(num as int, den as int);
            vstd::arithmetic::div_mod::lemma_mod_pos_bound(num as int, den as int);
        }
        let secs: u128 = if 2 * r > den {
            q + 1
        } else if 2 * r < den {
            q
        } else if q % 2 == 0 {
            q
        } else {
            q + 1
        };
        push_decimal_wide(s, secs);
        push_str(s, "s");
    } else {
        let secs_total = num / den;
        assert(num >= 60 * den) by (nonlinear_arith)
            requires
                secs_total == num / den,
                secs_total >= 60,
                den > 0,
        ;
        assert(num as int / (60 * den as int) == secs_total as int / 60) by {
            vstd::arithmetic::div_mod::lemma_div_denominator(num as int, den as int, 60);
            assert(den * 60 == 60 * den);
        }
        let m = secs_total / 60;
        assert(secs_total <= num) by (nonlinear_arith)
            requires
                den > 0,
                secs_total == num / den,
        ;
        push_decimal_wide(s, m);
        push_str(s, "m");
        push_decimal_wide(s, secs_total % 60);
        push_str(s, "s");
    }
    assert(final(s)@ =~= old(s)@ + duration_text(num as nat, den as nat));
}

// ---------------------------------------------------------------------------
// The progress line
// ---------------------------------------------------------------------------

/// `n` copies of `c`.
pub open spec fn repeat(c: char, n: nat) -> Seq<char> {
    Seq::new(n, |i: int| c)
}

fn push_repeat(s: &mut String, c: char, n: usize)
    ensures
        final(s)@ == old(s)@ + repeat(c, n as nat),
{
    let mut i: usize = 0;
    while i < n
        invariant
            i <= n,
            s@ == old(s)@ + repeat(c, i as nat),
        decreases n - i,
    {
        push_char(s, c);
        i = i + 1;
        assert(s@ =~= old(s)@ + repeat(c, i as nat));
    }
}

/// The percentage shown: done batches over all, at most 100, rounded.
pub open spec fn percent(current: nat, total: nat) -> nat {
    if current >= total {
        100
    } else {
        round_half_even(100 * current, total)
    }
}

/// Cells of the bar that are filled.
pub open spec fn filled_cells(current: nat, total: nat) -> nat {
    if current >= total {
        BAR_WIDTH as nat
    } else {
        let f = round_half_up((BAR_WIDTH * current) as nat, total);
        if f > BAR_WIDTH {
            BAR_WIDTH as nat
        } else {
            f
        }
    }
}

/// `n` right-aligned in a field of three characters.
pub open spec fn width3(n: nat) -> Seq<char> {
    repeat(' ', if decimal(n).len() < 3 {
        (3 - decimal(n).len()) as nat
    } else {
        0
    }) + decimal(n)
}

/// The spinner frame shown after `elapsed_ms`: eight frames a second.
pub open spec fn spinner_frame(elapsed_ms: nat) -> nat {
    (elapsed_ms * 8 / 1000) % 10
}

pub open spec fn spinner_char(k: nat) -> char {
    if k == 0 {
        '⠋'
    } else if k == 1 {
        '⠙'
    } else if k == 2 {
        '⠹'
    } else if k == 3 {
        '⠸'
    } else if k == 4 {
        '⠼'
    } else if k == 5 {
        '⠴'
    } else if k == 6 {
        '⠦'
    } else if k == 7 {
        '⠧'
    } else if k == 8 {
        '⠇'
    } else {
        '⠏'
    }
}

fn spinner_of(k: u64) -> (c: char)
    ensures
        c == spinner_char(k as nat),
{
    if k == 0 {
        '⠋'
    } else if k == 1 {
        '⠙'
    } else if k == 2 {
        '⠹'
    } else if k == 3 {
        '⠸'
    } else if k == 4 {
        '⠼'
    } else if k == 5 {
        '⠴'
    } else if k == 6 {
        '⠦'
    } else if k == 7 {
        '⠧'
    } else if k == 8 {
        '⠇'
    } else {
        '⠏'
    }
}

/// The start of every progress line: back to the line's start, clear it, and
/// the program's name.
pub open spec fn line_head() -> Seq<char> {
    "\r\x1b[2K  \x1b[1;36mril\x1b[0m  "@
}

/// The progress line after `current` batches and `elapsed_ms`: a bar when the
/// total is known and positive, a spinner otherwise.
pub open spec fn draw_text(current: nat, total: Option<usize>, elapsed_ms: nat) -> Seq<char> {
    match total {
        Some(t) if t > 0 => {
            let f = filled_cells(current, t as nat);
            line_head() + "\x1b[2m▕\x1b[0m\x1b[32m"@ + repeat('█', f) + "\x1b[0m\x1b[2m"@ + repeat(
                '░',
                (BAR_WIDTH - f) as nat,
            ) + "▏\x1b[0m  "@ + "\x1b[1m"@ + width3(percent(current, t as nat)) + "%\x1b[0m  "@
                + "\x1b[2m"@ + decimal(current) + "/"@ + decimal(t as nat) + "\x1b[0m  "@
                + "\x1b[33m~"@ + eta_text(current, t as nat, elapsed_ms) + "\x1b[0m"@
        },
        _ => line_head() + "\x1b[36m"@ + seq![spinner_char(spinner_frame(elapsed_ms))]
            + "\x1b[0m  "@ + "\x1b[2m"@ + decimal(current) + " batches  "@ + duration_text(
            elapsed_ms,
            1000,
        ) + "\x1b[0m"@,
    }
}

/// Builds the progress line. A count past the total shows a full bar and
/// 100%; the time left is not estimated for such a count once the first half
/// second has passed (the batches left would be negative).
pub fn draw(current: usize, total: Option<usize>, elapsed_ms: u64) -> (s: String)
    requires
        (total matches Some(t) && t > 0 && current > t) ==> elapsed_ms < 500,
    ensures
        s@ == draw_text(current as nat, total, elapsed_ms as nat),
{
    let mut s = String::new();
    push_str(&mut s, "\r\x1b[2K  \x1b[1;36mril\x1b[0m  ");
    match total {
        Some(t) if t > 0 => {
            let tt = t as u128;
            let c = current as u128;
            assert(tt <= 0xFFFF_FFFF_FFFF_FFFFu128 && c <= 0xFFFF_FFFF_FFFF_FFFFu128);
            let f: usize = if current >= t {
                BAR_WIDTH
            } else {
                let x = (44 * c + tt) / (2 * tt);
                if x > BAR_WIDTH as u128 {
                    BAR_WIDTH
                } else {
                    x as usize
                }
            };
            assert(f == filled_cells(current as nat, t as nat));
            push_str(&mut s, "\x1b[2m▕\x1b[0m\x1b[32m");
            push_repeat(&mut s, '█', f);
            push_str(&mut s, "\x1b[0m\x1b[2m");
            push_repeat(&mut s, '░', BAR_WIDTH - f);
            push_str(&mut s, "▏\x1b[0m  ");
            push_str(&mut s, "\x1b[1m");
            let p: u64 = if current >= t {
                100
            } else {
                let r = round_half_even_of(100 * c, tt);
                assert(r <= 100) by (nonlinear_arith)
                    requires
                        c < tt,
                        r == round_half_even((100 * c) as nat, tt as nat),
                ;
                r as u64
            };
            assert(p == percent(current as nat, t as nat));
            push_width3(&mut s, p);
            push_str(&mut s, "%\x1b[0m  ");
            push_str(&mut s, "\x1b[2m");
            push_decimal(&mut s, current as u64);
            push_str(&mut s, "/");
            push_decimal(&mut s, t as u64);
            push_str(&mut s, "\x1b[0m  ");
            push_str(&mut s, "\x1b[33m~");
            push_eta(&mut s, current, t, elapsed_ms);
            push_str(&mut s, "\x1b[0m");
        },
        _ => {
            push_str(&mut s, "\x1b[36m");
            let k = (elapsed_ms as u128 * 8 / 1000) % 10;
            push_char(&mut s, spinner_of(k as u64));
            push_str(&mut s, "\x1b[0m  ");
            push_str(&mut s, "\x1b[2m");
            push_decimal(&mut s, current as u64);
            push_str(&mut s, " batches  ");
            push_duration(&mut s, elapsed_ms as u128, 1000);
            push_str(&mut s, "\x1b[0m");
        },
    }
    assert(s@ =~= draw_text(current as nat, total, elapsed_ms as nat));
    s
}

fn push_width3(s: &mut String, n: u64)
    requires
        n <= 100,
    ensures
        final(s)@ == old(s)@ + width3(n as nat),
{
    proof {
        reveal_with_fuel(decimal, 3);
    }
    if n < 10 {
        push_str(s, "  ");
    } else if n < 100 {
        push_str(s, " ");
    }
    push_decimal(s, n);
    proof {
        reveal_strlit("  ");
        reveal_strlit(" ");
        assert(repeat(' ', 2) =~= "  "@);
        assert(repeat(' ', 1) =~= " "@);
        assert(repeat(' ', 0) =~= Seq::<char>::empty());
    }
    assert(final(s)@ =~= old(s)@ + width3(n as nat));
}

/// The last progress line: how many batches there were (the total when
/// known) and how long it all took.
pub open spec fn finish_text(current: nat, total: Option<usize>, elapsed_ms: nat) -> Seq<char> {
    let count = match total {
        Some(t) => t as nat,
        None => current,
    };
    line_head() + "\x1b[32m✓\x1b[0m  "@ + "\x1b[2m"@ + decimal(count) + " batches  done in "@
        + duration_text(elapsed_ms, 1000) + "\x1b[0m"@
}

pub fn finish(current: usize, total: Option<usize>, elapsed_ms: u64) -> (s: String)
    ensures
        s@ == finish_text(current as nat, total, elapsed_ms as nat),
{
    let mut s = String::new();
    push_str(&mut s, "\r\x1b[2K  \x1b[1;36mril\x1b[0m  ");
    push_str(&mut s, "\x1b[32m✓\x1b[0m  ");
    push_str(&mut s, "\x1b[2m");
    let count = match total {
        Some(t) => t,
        None => current,
    };
    push_decimal(&mut s, count as u64);
    push_str(&mut s, " batches  done in ");
    push_duration(&mut s, elapsed_ms as u128, 1000);
    push_str(&mut s, "\x1b[0m");
    assert(s@ =~= finish_text(current as nat, total, elapsed_ms as nat));
    s
}

proof fn lemma_div_scale(a: nat, b: nat, c: nat)
    requires
        b > 0,
        c > 0,
    ensures
        (a * c) / (b * c) == a / b,
        (a * c) % (b * c) == (a % b) * c,
{
    let q = a / b;
    let r = a % b;
    vstd::arithmetic::div_mod::lemma_fundamental_div_mod(a as int, b as int);
    assert(0 <= r < b);
    assert(a * c == q * (b * c) + r * c) by (nonlinear_arith)
        requires
            a == b * q + r,
    ;
    assert(0 <= r * c < b * c) by (nonlinear_arith)
        requires
            0 <= r < b,
            c > 0,
    ;
    vstd::arithmetic::div_mod::lemma_fundamental_div_mod_converse(
        (a * c) as int,
        (b * c) as int,
        q as int,
        (r * c) as int,
    );
}

/// A duration reads the same when both parts of its fraction are scaled.
proof fn lemma_duration_scale(num: nat, den: nat, c: nat)
    requires
        den > 0,
        c > 0,
    ensures
        duration_text(num * c, den * c) == duration_text(num, den),
{
    lemma_div_scale(num, den, c);
    assert((num * c < 60 * (den * c)) == (num < 60 * den)) by (nonlinear_arith)
        requires
            c > 0,
    ;
    assert(60 * (den * c) == (60 * den) * c) by (nonlinear_arith);
    lemma_div_scale(num, 60 * den, c);
    let q = num / den;
    let r = num % den;
    assert((2 * (r * c) > den * c) == (2 * r > den)) by (nonlinear_arith)
        requires
            c > 0,
    ;
    assert((2 * (r * c) < den * c) == (2 * r < den)) by (nonlinear_arith)
        requires
            c > 0,
    ;
    assert(round_half_even(num * c, den * c) == round_half_even(num, den));
}

/// The time left is the time so far scaled by the batches left per batch
/// done: with `k` times as many batches left as done (after the first half
/// second), it reads as `k` times the elapsed time.
pub proof fn lemma_eta_scales_time_so_far(current: nat, k: nat, elapsed_ms: nat)
    requires
        current > 0,
        elapsed_ms >= 500,
    ensures
        eta_text(current, current + k * current, elapsed_ms) == duration_text(k * elapsed_ms, 1000),
{
    assert((current + k * current - current) * elapsed_ms == (k * elapsed_ms) * current) by (
    nonlinear_arith);
    assert(current * 1000 == 1000 * current) by (nonlinear_arith);
    lemma_duration_scale(k * elapsed_ms, 1000, current);
}

} // verus!
