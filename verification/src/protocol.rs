//! The lines that stage processes write to stderr for the orchestrator, and
//! the worker counts that the orchestrator writes back to a stage.
use vstd::prelude::*;

use vstd::arithmetic::div_mod::lemma_fundamental_div_mod;
use crate::text::{
    chars_of, decimal, digit_char, digit_to_char, digits_value, find_char, is_digit,
    is_digit_char, lemma_decimal_digits, lemma_find_char, lemma_parse_decimal,
    lemma_scan_all_digits, lemma_value_of_decimal, parse_uint, parse_uint_range, push_char,
    push_decimal, push_str, scan_digits, trim, trim_bounds, value_from, IntErrorKind,
    digit_val,
};

verus! {

/// Starts the line with which `load` announces how many batches it will send.
pub const TOTAL_PREFIX: &'static str = "RIL_TOTAL_BATCHES:";

/// Starts the line with which a stage reports how many batches it has finished.
pub const BATCH_PREFIX: &'static str = "RIL_BATCH:";

/// Starts the line with which a profiled stage reports its time per batch.
pub const TIMING_PREFIX: &'static str = "RIL_TIMING:";

// ---------------------------------------------------------------------------
// Counts
// ---------------------------------------------------------------------------

/// The line that reports `n` finished batches.
pub open spec fn batch_line_text(n: nat) -> Seq<char> {
    BATCH_PREFIX@ + decimal(n)
}

/// The line that announces `n` batches in all.
pub open spec fn total_line_text(n: nat) -> Seq<char> {
    TOTAL_PREFIX@ + decimal(n)
}

pub fn batch_line(n: usize) -> (s: String)
    ensures
        s@ == batch_line_text(n as nat),
{
    let mut s = String::new();
    push_str(&mut s, BATCH_PREFIX);
    push_decimal(&mut s, n as u64);
    assert(s@ =~= batch_line_text(n as nat));
    s
}

pub fn total_line(n: usize) -> (s: String)
    ensures
        s@ == total_line_text(n as nat),
{
    let mut s = String::new();
    push_str(&mut s, TOTAL_PREFIX);
    push_decimal(&mut s, n as u64);
    assert(s@ =~= total_line_text(n as nat));
    s
}

// ---------------------------------------------------------------------------
// Times in milliseconds, to the microsecond
// ---------------------------------------------------------------------------

/// `us` microseconds written as milliseconds with three decimals (`12.345`).
pub open spec fn ms_text(us: nat) -> Seq<char> {
    decimal(us / 1000) + seq![
        '.',
        digit_char((us % 1000) / 100),
        digit_char((us % 100) / 10),
        digit_char(us % 10),
    ]
}

/// The first three decimals of a fraction written by the digits `f`, as
/// thousandths (missing decimals count as zeros, further ones are dropped).
pub open spec fn thousandths(f: Seq<char>) -> nat {
    let d = |k: int| if k < f.len() {
        digit_val(f[k])
    } else {
        0
    };
    100 * d(0) + 10 * d(1) + d(2)
}

pub open spec fn all_digits(s: Seq<char>) -> bool {
    s.len() > 0 && forall|j: int| 0 <= j < s.len() ==> is_digit(#[trigger] s[j])
}

/// A non-negative decimal number of milliseconds (`12`, `12.3456`), in whole
/// microseconds.
pub open spec fn ms_value(s: Seq<char>) -> Option<nat> {
    match find_char(s, '.') {
        None => if all_digits(s) {
            Some(digits_value(s) * 1000)
        } else {
            None
        },
        Some(p) => {
            let a = s.take(p as int);
            let b = s.skip(p + 1int);
            if all_digits(a) && all_digits(b) {
                Some(digits_value(a) * 1000 + thousandths(b))
            } else {
                None
            }
        },
    }
}

/// `ms_value`, when it fits in a `u64`.
pub open spec fn parse_ms(s: Seq<char>) -> Option<u64> {
    match ms_value(s) {
        Some(v) => if v <= u64::MAX {
            Some(v as u64)
        } else {
            None
        },
        None => None,
    }
}

/// The line that reports a time per batch of `us` microseconds.
pub open spec fn timing_line_text(us: nat) -> Seq<char> {
    TIMING_PREFIX@ + ms_text(us)
}

pub fn timing_line(us: u64) -> (s: String)
    ensures
        s@ == timing_line_text(us as nat),
{
    let mut s = String::new();
    push_str(&mut s, TIMING_PREFIX);
    push_decimal(&mut s, us / 1000);
    push_char(&mut s, '.');
    push_char(&mut s, digit_to_char(((us % 1000) / 100) as u8));
    push_char(&mut s, digit_to_char(((us % 100) / 10) as u8));
    push_char(&mut s, digit_to_char((us % 10) as u8));
    assert(s@ =~= timing_line_text(us as nat));
    s
}

fn all_digits_range(v: &Vec<char>, lo: usize, hi: usize) -> (b: bool)
    requires
        lo <= hi <= v@.len(),
    ensures
        b == all_digits(v@.subrange(lo as int, hi as int)),
{
    if lo == hi {
        return false;
    }
    let mut i = lo;
    while i < hi
        invariant
            lo <= i <= hi <= v@.len(),
            forall|j: int| lo <= j < i ==> is_digit(#[trigger] v@[j]),
        decreases hi - i,
    {
        if !is_digit_char(v[i]) {
            assert(!is_digit(v@.subrange(lo as int, hi as int)[i - lo]));
            return false;
        }
        i = i + 1;
    }
    assert forall|j: int| 0 <= j < hi - lo implies is_digit(
        #[trigger] v@.subrange(lo as int, hi as int)[j],
    ) by {
        assert(v@.subrange(lo as int, hi as int)[j] == v@[lo + j]);
    }
    true
}

/// Value of the digits `v[lo..hi]`, or `None` past `u64::MAX`.
fn digits_range_value(v: &Vec<char>, lo: usize, hi: usize) -> (r: Option<u64>)
    requires
        lo <= hi <= v@.len(),
        all_digits(v@.subrange(lo as int, hi as int)),
    ensures
        r matches Some(n) ==> n == digits_value(v@.subrange(lo as int, hi as int)),
        r is None ==> digits_value(v@.subrange(lo as int, hi as int)) > u64::MAX,
{
    let ghost d = v@.subrange(lo as int, hi as int);
    proof {
        lemma_scan_all_digits(d, 0, u64::MAX as nat);
        assert(is_digit(d[0]));
    }
    match parse_uint_range(v, lo, hi, u64::MAX) {
        Ok(n) => Some(n),
        Err(_) => None,
    }
}

/// Reads `v[lo..hi]` as a number of milliseconds, in microseconds.
pub fn ms_of(v: &Vec<char>, lo: usize, hi: usize) -> (r: Option<u64>)
    requires
        lo <= hi <= v@.len(),
    ensures
        r == parse_ms(v@.subrange(lo as int, hi as int)),
{
    let ghost s = v@.subrange(lo as int, hi as int);
    let mut p = lo;
    while p < hi && v[p] != '.'
        invariant
            lo <= p <= hi <= v@.len(),
            forall|j: int| lo <= j < p ==> v@[j] != '.',
        decreases hi - p,
    {
        p = p + 1;
    }
    proof {
        assert forall|j: int| 0 <= j < p - lo implies s[j] != '.' by {
            assert(s[j] == v@[lo + j]);
        }
        if p < hi {
            assert(s[p - lo] == v@[p as int]);
        }
        lemma_find_char(s, '.', p - lo);
    }
    if p == hi {
        if !all_digits_range(v, lo, hi) {
            return None;
        }
        match digits_range_value(v, lo, hi) {
            Some(n) => {
                if n > u64::MAX / 1000 {
                    return None;
                }
                return Some(n * 1000);
            },
            None => {
                return None;
            },
        }
    }
    assert(s.take(p - lo) =~= v@.subrange(lo as int, p as int));
    assert(s.skip(p - lo + 1) =~= v@.subrange(p + 1, hi as int));
    if !all_digits_range(v, lo, p) || !all_digits_range(v, p + 1, hi) {
        return None;
    }
    let whole = match digits_range_value(v, lo, p) {
        Some(n) => n,
        None => {
            return None;
        },
    };
    let ghost b = v@.subrange(p + 1, hi as int);
    let d0 = v[p + 1] as u32 - '0' as u32;
    let d1 = if hi - p > 2 {
        v[p + 2] as u32 - '0' as u32
    } else {
        0
    };
    let d2 = if hi - p > 3 {
        v[p + 3] as u32 - '0' as u32
    } else {
        0
    };
    assert(b[0] == v@[p + 1]);
    assert(p + 2 < hi ==> b[1] == v@[p + 2]);
    assert(p + 3 < hi ==> b[2] == v@[p + 3]);
    let frac = (100 * d0 + 10 * d1 + d2) as u64;
    assert(frac == thousandths(b));
    if whole > (u64::MAX - frac) / 1000 {
        assert(whole * 1000 + frac > u64::MAX) by (nonlinear_arith)
            requires
                whole > (u64::MAX - frac) / 1000,
                frac <= 999,
        ;
        return None;
    }
    assert(whole * 1000 + frac <= u64::MAX) by (nonlinear_arith)
        requires
            whole <= (u64::MAX - frac) / 1000,
            frac <= 999,
    ;
    Some(whole * 1000 + frac)
}

proof fn lemma_three_digits(u: nat)
    ensures
        (u % 1000) / 100 < 10,
        (u % 100) / 10 < 10,
        u % 10 < 10,
        100 * ((u % 1000) / 100) + 10 * ((u % 100) / 10) + u % 10 == u % 1000,
        (u / 1000) * 1000 + u % 1000 == u,
{
    let m = u % 1000;
    vstd::arithmetic::div_mod::lemma_mod_mod(u as int, 100, 10);
    vstd::arithmetic::div_mod::lemma_mod_mod(u as int, 10, 100);
    assert(m % 100 == u % 100);
    assert(m % 10 == u % 10);
    assert(m < 1000);
    assert(m == 100 * (m / 100) + m % 100);
    assert(m % 100 == 10 * ((m % 100) / 10) + m % 10);
    lemma_fundamental_div_mod(u as int, 1000);
}

/// Reading back a written time gives it again, to the microsecond.
pub proof fn lemma_ms_roundtrip(us: u64)
    ensures
        parse_ms(ms_text(us as nat)) == Some(us),
{
    let u = us as nat;
    let q = u / 1000;
    let d2 = (u % 1000) / 100;
    let d1 = (u % 100) / 10;
    let d0 = u % 10;
    lemma_three_digits(u);
    let a = decimal(q);
    let tail = seq!['.', digit_char(d2), digit_char(d1), digit_char(d0)];
    let s = a + tail;
    assert(s =~= ms_text(u));
    lemma_decimal_digits(q);
    lemma_value_of_decimal(q);
    assert forall|j: int| 0 <= j < a.len() implies s[j] != '.' by {
        assert(s[j] == a[j]);
        assert(is_digit(a[j]));
    }
    assert(s[a.len() as int] == '.');
    lemma_find_char(s, '.', a.len() as int);
    assert(s.take(a.len() as int) =~= a);
    let b = s.skip(a.len() + 1int);
    assert(b =~= seq![digit_char(d2), digit_char(d1), digit_char(d0)]);
    lemma_digit(d2);
    lemma_digit(d1);
    lemma_digit(d0);
    assert(all_digits(b));
    assert(thousandths(b) == 100 * d2 + 10 * d1 + d0);
    assert(ms_value(s) == Some(q * 1000 + u % 1000));
}

proof fn lemma_digit(d: nat)
    requires
        d < 10,
    ensures
        is_digit(digit_char(d)),
        digit_val(digit_char(d)) == d,
{
}

// ---------------------------------------------------------------------------
// Worker counts sent back to a stage
// ---------------------------------------------------------------------------

/// The line that tells a stage how many workers to run.
pub open spec fn control_line_text(count: nat) -> Seq<char> {
    decimal(count).push('\n')
}

pub fn control_line(count: usize) -> (s: String)
    ensures
        s@ == control_line_text(count as nat),
{
    let mut s = String::new();
    push_decimal(&mut s, count as u64);
    push_char(&mut s, '\n');
    assert(s@ =~= control_line_text(count as nat));
    s
}

/// The worker count that a stage reads from a line: the line without its
/// surrounding whitespace, as a number.
pub open spec fn control_value(line: Seq<char>) -> Option<usize> {
    match parse_uint(trim(line), usize::MAX as nat) {
        Ok(n) => Some(n as usize),
        Err(_) => None,
    }
}

pub fn parse_control_line(line: &str) -> (r: Option<usize>)
    ensures
        r == control_value(line@),
{
    let v = chars_of(line);
    let (lo, hi) = trim_bounds(&v);
    match parse_uint_range(&v, lo, hi, usize::MAX as u64) {
        Ok(n) => Some(n as usize),
        Err(_) => None,
    }
}

/// A stage reads back exactly the count the orchestrator wrote.
pub proof fn lemma_control_roundtrip(count: usize)
    ensures
        control_value(control_line_text(count as nat)) == Some(count),
{
    let d = decimal(count as nat);
    let s = control_line_text(count as nat);
    lemma_decimal_digits(count as nat);
    lemma_parse_decimal(count as nat, usize::MAX as nat);
    assert(trim(s) == d) by {
        assert(is_digit(d[0]));
        assert(is_digit(d.last()));
        assert(s[0] == d[0]);
        assert(crate::text::trim_start(s) == s);
        assert(s.drop_last() =~= d);
        assert(crate::text::is_ws(s.last()));
        assert(crate::text::trim_end(d) == d);
        assert(crate::text::trim_end(s) == crate::text::trim_end(d));
    }
}

} // verus!
