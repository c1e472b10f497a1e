//! Character-level building blocks: whitespace, splitting, trimming, and
//! decimal numbers, each stated over `Seq<char>` and implemented on `Vec<char>`.
use vstd::prelude::*;

verus! {

// ---------------------------------------------------------------------------
// Characters
// ---------------------------------------------------------------------------

/// The Unicode `White_Space` property, as `char::is_whitespace` decides it.
pub open spec fn is_ws(c: char) -> bool {
    let u = c as u32;
    ||| 0x09 <= u <= 0x0D
    ||| u == 0x20
    ||| u == 0x85
    ||| u == 0xA0
    ||| u == 0x1680
    ||| 0x2000 <= u <= 0x200A
    ||| u == 0x2028
    ||| u == 0x2029
    ||| u == 0x202F
    ||| u == 0x205F
    ||| u == 0x3000
}

pub open spec fn is_digit(c: char) -> bool {
    '0' <= c && c <= '9'
}

pub open spec fn digit_val(c: char) -> nat {
    (c as u32 - '0' as u32) as nat
}

pub open spec fn digit_char(d: nat) -> char {
    ((d + '0' as u32) as u32) as char
}

pub fn is_ws_char(c: char) -> (b: bool)
    ensures
        b == is_ws(c),
{
    let u = c as u32;
    (0x09 <= u && u <= 0x0D) || u == 0x20 || u == 0x85 || u == 0xA0 || u == 0x1680 || (0x2000
        <= u && u <= 0x200A) || u == 0x2028 || u == 0x2029 || u == 0x202F || u == 0x205F || u
        == 0x3000
}

pub fn is_digit_char(c: char) -> (b: bool)
    ensures
        b == is_digit(c),
{
    '0' <= c && c <= '9'
}

// ---------------------------------------------------------------------------
// Conversions between `str`/`String` and `Vec<char>`
// ---------------------------------------------------------------------------

/// The characters of `s`, in order.
pub fn chars_of(s: &str) -> (v: Vec<char>)
    ensures
        v@ == s@,
{
    let mut v: Vec<char> = Vec::new();
    for c in it: s.chars()
        invariant
            v@ == it.seq().take(it.index()),
            it.seq() == s@,
    {
        v.push(c);
    }
    v
}

/// `String::push`: appends one character to the end of the string.
#[verifier::external_body]
pub fn push_char(s: &mut String, c: char)
    ensures
        final(s)@ == old(s)@.push(c),
{
    s.push(c);
}

/// Appends the characters of `v[lo..hi]` to `s`.
pub fn push_range(s: &mut String, v: &Vec<char>, lo: usize, hi: usize)
    requires
        lo <= hi <= v@.len(),
    ensures
        final(s)@ == old(s)@ + v@.subrange(lo as int, hi as int),
{
    let mut i = lo;
    while i < hi
        invariant
            lo <= i <= hi <= v@.len(),
            s@ == old(s)@ + v@.subrange(lo as int, i as int),
        decreases hi - i,
    {
        push_char(s, v[i]);
        i = i + 1;
        assert(v@.subrange(lo as int, i as int) =~= v@.subrange(lo as int, (i - 1) as int).push(
            v@[i - 1],
        ));
    }
}

/// Appends all of `v` to `s`.
pub fn push_chars(s: &mut String, v: &Vec<char>)
    ensures
        final(s)@ == old(s)@ + v@,
{
    push_range(s, v, 0, v.len());
    assert(v@.subrange(0, v@.len() as int) =~= v@);
}

/// Appends all of `t` to `s`.
pub fn push_str(s: &mut String, t: &str)
    ensures
        final(s)@ == old(s)@ + t@,
{
    let v = chars_of(t);
    push_chars(s, &v);
}

/// A `String` holding exactly the characters of `v`.
pub fn string_of(v: &Vec<char>) -> (s: String)
    ensures
        s@ == v@,
{
    let mut s = String::new();
    push_chars(&mut s, v);
    assert(Seq::<char>::empty() + v@ =~= v@);
    s
}

/// A `String` holding exactly the characters of `v[lo..hi]`.
pub fn string_of_range(v: &Vec<char>, lo: usize, hi: usize) -> (s: String)
    requires
        lo <= hi <= v@.len(),
    ensures
        s@ == v@.subrange(lo as int, hi as int),
{
    let mut s = String::new();
    push_range(&mut s, v, lo, hi);
    assert(Seq::<char>::empty() + v@.subrange(lo as int, hi as int) =~= v@.subrange(
        lo as int,
        hi as int,
    ));
    s
}

/// Whether two character sequences are equal.
pub fn chars_equal(a: &Vec<char>, b: &Vec<char>) -> (r: bool)
    ensures
        r == (a@ == b@),
{
    if a.len() != b.len() {
        return false;
    }
    let mut i: usize = 0;
    while i < a.len()
        invariant
            a@.len() == b@.len(),
            i <= a@.len(),
            forall|j: int| 0 <= j < i ==> a@[j] == b@[j],
        decreases a@.len() - i,
    {
        if a[i] != b[i] {
            return false;
        }
        i = i + 1;
    }
    assert(a@ =~= b@);
    true
}

/// The character sequences held by a vector of character vectors.
pub open spec fn views(v: Seq<Vec<char>>) -> Seq<Seq<char>> {
    v.map_values(|w: Vec<char>| w@)
}

// ---------------------------------------------------------------------------
// Splitting on a separator (`str::split` with a `char` pattern)
// ---------------------------------------------------------------------------

/// The pieces of `s` between occurrences of `sep`, in order; there is always one
/// more piece than there are separators, and pieces may be empty.
pub open spec fn split_on(s: Seq<char>, sep: char) -> Seq<Seq<char>>
    decreases s.len(),
{
    if s.len() == 0 {
        seq![Seq::<char>::empty()]
    } else {
        let prev = split_on(s.drop_last(), sep);
        if s.last() == sep {
            prev.push(Seq::<char>::empty())
        } else {
            prev.update(prev.len() - 1, prev.last().push(s.last()))
        }
    }
}

pub proof fn lemma_split_on_nonempty(s: Seq<char>, sep: char)
    ensures
        split_on(s, sep).len() >= 1,
    decreases s.len(),
{
    if s.len() > 0 {
        lemma_split_on_nonempty(s.drop_last(), sep);
    }
}

/// No piece produced by `split_on` contains the separator.
pub proof fn lemma_split_on_no_sep(s: Seq<char>, sep: char)
    ensures
        forall|k: int, j: int|
            0 <= k < split_on(s, sep).len() && 0 <= j < split_on(s, sep)[k].len()
                ==> split_on(s, sep)[k][j] != sep,
    decreases s.len(),
{
    if s.len() > 0 {
        lemma_split_on_no_sep(s.drop_last(), sep);
        lemma_split_on_nonempty(s.drop_last(), sep);
    }
}

/// Appending text without the separator extends the last piece.
pub proof fn lemma_split_on_append(x: Seq<char>, y: Seq<char>, sep: char)
    requires
        forall|j: int| 0 <= j < y.len() ==> y[j] != sep,
    ensures
        split_on(x + y, sep) == split_on(x, sep).update(
            split_on(x, sep).len() - 1,
            split_on(x, sep).last() + y,
        ),
    decreases y.len(),
{
    lemma_split_on_nonempty(x, sep);
    if y.len() == 0 {
        assert(x + y =~= x);
        assert(split_on(x, sep).last() + y =~= split_on(x, sep).last());
        assert(split_on(x, sep).update(split_on(x, sep).len() - 1, split_on(x, sep).last())
            =~= split_on(x, sep));
    } else {
        let y0 = y.drop_last();
        lemma_split_on_append(x, y0, sep);
        assert((x + y).drop_last() =~= x + y0);
        assert((x + y).last() == y.last());
        let p = split_on(x, sep);
        let prev = split_on(x + y0, sep);
        assert(y.last() != sep);
        assert(prev.len() == p.len());
        assert(prev.last() == p.last() + y0);
        assert((p.last() + y0).push(y.last()) =~= p.last() + y);
        assert(split_on(x + y, sep) == prev.update(prev.len() - 1, prev.last().push(y.last())));
        assert(split_on(x + y, sep) =~= p.update(p.len() - 1, p.last() + y));
    }
}

/// Appending the separator starts a new, empty piece.
pub proof fn lemma_split_on_push_sep(x: Seq<char>, sep: char)
    ensures
        split_on(x.push(sep), sep) == split_on(x, sep).push(Seq::<char>::empty()),
{
    assert(x.push(sep).drop_last() =~= x);
}

/// Two texts without the separator, joined by it, split into the two.
pub proof fn lemma_split_on_two(a: Seq<char>, b: Seq<char>, sep: char)
    requires
        forall|j: int| 0 <= j < a.len() ==> a[j] != sep,
        forall|j: int| 0 <= j < b.len() ==> b[j] != sep,
    ensures
        split_on(a.push(sep) + b, sep) == seq![a, b],
{
    let e = Seq::<char>::empty();
    lemma_split_on_append(e, a, sep);
    assert(e + a =~= a);
    assert(split_on(e, sep) == seq![e]);
    assert(seq![e].update(0, e + a) =~= seq![a]);
    lemma_split_on_push_sep(a, sep);
    lemma_split_on_append(a.push(sep), b, sep);
    assert(seq![a].push(e).update(1, e + b) =~= seq![a, b]);
}

/// `split_on` on `v`.
pub fn split_chars(v: &Vec<char>, sep: char) -> (r: Vec<Vec<char>>)
    ensures
        views(r@) == split_on(v@, sep),
{
    let mut done: Vec<Vec<char>> = Vec::new();
    let mut cur: Vec<char> = Vec::new();
    let mut i: usize = 0;
    while i < v.len()
        invariant
            i <= v@.len(),
            views(done@).push(cur@) == split_on(v@.take(i as int), sep),
        decreases v@.len() - i,
    {
        let c = v[i];
        proof {
            assert(v@.take(i + 1).drop_last() =~= v@.take(i as int));
            assert(v@.take(i + 1).last() == c);
        }
        let ghost prev = split_on(v@.take(i as int), sep);
        if c == sep {
            let old_cur = cur;
            let ghost old_done = done@;
            done.push(old_cur);
            cur = Vec::new();
            assert(views(done@) =~= views(old_done).push(old_cur@));
            assert(views(done@).push(cur@) =~= prev.push(Seq::<char>::empty()));
        } else {
            let ghost old_cur = cur@;
            cur.push(c);
            assert(views(done@).push(cur@) =~= prev.update(prev.len() - 1, old_cur.push(c)));
        }
        i = i + 1;
    }
    assert(v@.take(v@.len() as int) =~= v@);
    let ghost old_done = done@;
    let ghost last = cur@;
    done.push(cur);
    assert(views(done@) =~= views(old_done).push(last));
    done
}

// ---------------------------------------------------------------------------
// Whitespace-separated words (`str::split_whitespace`)
// ---------------------------------------------------------------------------

/// Scans `s` left to right: the words completed so far, and the word in progress.
pub open spec fn scan_words(s: Seq<char>) -> (Seq<Seq<char>>, Seq<char>)
    decreases s.len(),
{
    if s.len() == 0 {
        (Seq::empty(), Seq::empty())
    } else {
        let (done, cur) = scan_words(s.drop_last());
        if is_ws(s.last()) {
            if cur.len() > 0 {
                (done.push(cur), Seq::empty())
            } else {
                (done, Seq::empty())
            }
        } else {
            (done, cur.push(s.last()))
        }
    }
}

/// Appending text without whitespace extends the word in progress.
pub proof fn lemma_scan_words_append(x: Seq<char>, y: Seq<char>)
    requires
        forall|j: int| 0 <= j < y.len() ==> !is_ws(y[j]),
    ensures
        scan_words(x + y) == (scan_words(x).0, scan_words(x).1 + y),
    decreases y.len(),
{
    if y.len() == 0 {
        assert(x + y =~= x);
        assert(scan_words(x).1 + y =~= scan_words(x).1);
    } else {
        let y0 = y.drop_last();
        lemma_scan_words_append(x, y0);
        assert((x + y).drop_last() =~= x + y0);
        assert((x + y).last() == y.last());
        assert((scan_words(x).1 + y0).push(y.last()) =~= scan_words(x).1 + y);
    }
}

/// Appending a whitespace character completes the word in progress, if any.
pub proof fn lemma_scan_words_push_ws(x: Seq<char>, c: char)
    requires
        is_ws(c),
    ensures
        scan_words(x.push(c)) == if scan_words(x).1.len() > 0 {
            (scan_words(x).0.push(scan_words(x).1), Seq::<char>::empty())
        } else {
            (scan_words(x).0, Seq::<char>::empty())
        },
{
    assert(x.push(c).drop_last() =~= x);
}

/// The maximal runs of non-whitespace characters of `s`, in order.
pub open spec fn words(s: Seq<char>) -> Seq<Seq<char>> {
    let (done, cur) = scan_words(s);
    if cur.len() > 0 {
        done.push(cur)
    } else {
        done
    }
}

/// Every word is non-empty and free of whitespace.
pub proof fn lemma_words_shape(s: Seq<char>)
    ensures
        forall|k: int| 0 <= k < words(s).len() ==> #[trigger] words(s)[k].len() > 0,
        forall|k: int, j: int|
            0 <= k < words(s).len() && 0 <= j < words(s)[k].len() ==> !is_ws(
                #[trigger] words(s)[k][j],
            ),
{
    lemma_scan_words_shape(s);
}

proof fn lemma_scan_words_shape(s: Seq<char>)
    ensures
        forall|k: int| 0 <= k < scan_words(s).0.len() ==> #[trigger] scan_words(s).0[k].len() > 0,
        forall|k: int, j: int|
            0 <= k < scan_words(s).0.len() && 0 <= j < scan_words(s).0[k].len() ==> !is_ws(
                #[trigger] scan_words(s).0[k][j],
            ),
        forall|j: int| 0 <= j < scan_words(s).1.len() ==> !is_ws(#[trigger] scan_words(s).1[j]),
    decreases s.len(),
{
    if s.len() > 0 {
        lemma_scan_words_shape(s.drop_last());
        let (done, cur) = scan_words(s.drop_last());
        if is_ws(s.last()) {
            if cur.len() > 0 {
                assert forall|k: int, j: int|
                    0 <= k < done.push(cur).len() && 0 <= j < done.push(cur)[k].len() implies !is_ws(
                    #[trigger] done.push(cur)[k][j]) by {
                    if k < done.len() {
                        assert(done.push(cur)[k] == done[k]);
                    }
                }
            }
        } else {
            assert forall|j: int| 0 <= j < cur.push(s.last()).len() implies !is_ws(
                #[trigger] cur.push(s.last())[j]) by {
                if j < cur.len() {
                    assert(cur.push(s.last())[j] == cur[j]);
                }
            }
        }
    }
}

/// `words` on `v`.
pub fn words_of(v: &Vec<char>) -> (r: Vec<Vec<char>>)
    ensures
        views(r@) == words(v@),
{
    let mut done: Vec<Vec<char>> = Vec::new();
    let mut cur: Vec<char> = Vec::new();
    let mut i: usize = 0;
    while i < v.len()
        invariant
            i <= v@.len(),
            (views(done@), cur@) == scan_words(v@.take(i as int)),
        decreases v@.len() - i,
    {
        let c = v[i];
        proof {
            assert(v@.take(i + 1).drop_last() =~= v@.take(i as int));
            assert(v@.take(i + 1).last() == c);
        }
        if is_ws_char(c) {
            if cur.len() > 0 {
                let old_cur = cur;
                let ghost old_done = done@;
                done.push(old_cur);
                cur = Vec::new();
                assert(views(done@) =~= views(old_done).push(old_cur@));
                assert(cur@ =~= Seq::<char>::empty());
            } else {
                assert(cur@ =~= Seq::<char>::empty());
            }
        } else {
            cur.push(c);
        }
        i = i + 1;
    }
    assert(v@.take(v@.len() as int) =~= v@);
    if cur.len() > 0 {
        let ghost old_done = done@;
        let ghost last = cur@;
        done.push(cur);
        assert(views(done@) =~= views(old_done).push(last));
    }
    done
}

// ---------------------------------------------------------------------------
// Trimming (`str::trim`)
// ---------------------------------------------------------------------------

/// `s` without its leading whitespace.
pub open spec fn trim_start(s: Seq<char>) -> Seq<char>
    decreases s.len(),
{
    if s.len() > 0 && is_ws(s[0]) {
        trim_start(s.drop_first())
    } else {
        s
    }
}

/// `s` without its trailing whitespace.
pub open spec fn trim_end(s: Seq<char>) -> Seq<char>
    decreases s.len(),
{
    if s.len() > 0 && is_ws(s.last()) {
        trim_end(s.drop_last())
    } else {
        s
    }
}

/// `s` without leading and trailing whitespace.
pub open spec fn trim(s: Seq<char>) -> Seq<char> {
    trim_end(trim_start(s))
}

proof fn lemma_trim_start_range(v: Seq<char>, lo: int)
    requires
        0 <= lo <= v.len(),
        forall|j: int| 0 <= j < lo ==> is_ws(#[trigger] v[j]),
    ensures
        trim_start(v) == trim_start(v.subrange(lo, v.len() as int)),
    decreases lo,
{
    if lo > 0 {
        assert(v.drop_first().subrange(lo - 1, v.drop_first().len() as int) =~= v.subrange(
            lo,
            v.len() as int,
        ));
        lemma_trim_start_range(v.drop_first(), lo - 1);
    } else {
        assert(v.subrange(0, v.len() as int) =~= v);
    }
}

proof fn lemma_trim_end_range(v: Seq<char>, hi: int)
    requires
        0 <= hi <= v.len(),
        forall|j: int| hi <= j < v.len() ==> is_ws(#[trigger] v[j]),
    ensures
        trim_end(v) == trim_end(v.subrange(0, hi)),
    decreases v.len() - hi,
{
    if hi < v.len() {
        assert(v.drop_last().subrange(0, hi) =~= v.subrange(0, hi));
        lemma_trim_end_range(v.drop_last(), hi);
    } else {
        assert(v.subrange(0, hi) =~= v);
    }
}

/// The bounds `lo..hi` of `trim(v)` within `v`.
pub fn trim_bounds(v: &Vec<char>) -> (r: (usize, usize))
    ensures
        r.0 <= r.1 <= v@.len(),
        v@.subrange(r.0 as int, r.1 as int) == trim(v@),
{
    let mut lo: usize = 0;
    while lo < v.len() && is_ws_char(v[lo])
        invariant
            lo <= v@.len(),
            forall|j: int| 0 <= j < lo ==> is_ws(#[trigger] v@[j]),
        decreases v@.len() - lo,
    {
        lo = lo + 1;
    }
    let ghost rest = v@.subrange(lo as int, v@.len() as int);
    proof {
        lemma_trim_start_range(v@, lo as int);
        if rest.len() > 0 {
            assert(rest[0] == v@[lo as int]);
        }
        assert(trim_start(rest) == rest);
    }
    let mut hi: usize = v.len();
    while hi > lo && is_ws_char(v[hi - 1])
        invariant
            lo <= hi <= v@.len(),
            forall|j: int| hi <= j < v@.len() ==> is_ws(#[trigger] v@[j]),
        decreases hi,
    {
        hi = hi - 1;
    }
    proof {
        lemma_trim_end_range(rest, hi - lo);
        assert(rest.subrange(0, hi - lo) =~= v@.subrange(lo as int, hi as int));
        let t = v@.subrange(lo as int, hi as int);
        if t.len() > 0 {
            assert(t.last() == v@[hi - 1]);
        }
        assert(trim_end(t) == t);
    }
    (lo, hi)
}

// ---------------------------------------------------------------------------
// Unsigned decimal numbers
// ---------------------------------------------------------------------------

/// Why text is not an unsigned integer, as `core::num::IntErrorKind` names it.
#[derive(Clone, Copy, Debug, PartialEq, Eq)]
pub enum IntErrorKind {
    Empty,
    InvalidDigit,
    PosOverflow,
}

/// Reads the digits of `d` left to right onto `acc`, failing at the first
/// character that is not a digit or at the first prefix whose value exceeds `max`.
pub open spec fn scan_digits(d: Seq<char>, acc: nat, max: nat) -> Result<nat, IntErrorKind>
    decreases d.len(),
{
    if d.len() == 0 {
        Ok(acc)
    } else if !is_digit(d[0]) {
        Err(IntErrorKind::InvalidDigit)
    } else if acc * 10 + digit_val(d[0]) > max {
        Err(IntErrorKind::PosOverflow)
    } else {
        scan_digits(d.drop_first(), acc * 10 + digit_val(d[0]), max)
    }
}

/// `s` read as an unsigned integer no larger than `max`, as `str::parse` reads one
/// for an unsigned integer type: an optional `+`, then decimal digits.
pub open spec fn parse_uint(s: Seq<char>, max: nat) -> Result<nat, IntErrorKind> {
    if s.len() == 0 {
        Err(IntErrorKind::Empty)
    } else if s[0] == '+' {
        if s.len() == 1 {
            Err(IntErrorKind::InvalidDigit)
        } else {
            scan_digits(s.drop_first(), 0, max)
        }
    } else {
        scan_digits(s, 0, max)
    }
}

proof fn lemma_scan_digits_bound(d: Seq<char>, acc: nat, max: nat)
    requires
        acc <= max,
    ensures
        scan_digits(d, acc, max) matches Ok(v) ==> v <= max,
    decreases d.len(),
{
    if d.len() > 0 && is_digit(d[0]) && acc * 10 + digit_val(d[0]) <= max {
        lemma_scan_digits_bound(d.drop_first(), acc * 10 + digit_val(d[0]), max);
    }
}

/// `parse_uint` on `v[lo..hi]`, for `max` no larger than `u64::MAX`.
pub fn parse_uint_range(v: &Vec<char>, lo: usize, hi: usize, max: u64) -> (r: Result<
    u64,
    IntErrorKind,
>)
    requires
        lo <= hi <= v@.len(),
    ensures
        r matches Ok(n) ==> n <= max,
        r matches Ok(n) ==> parse_uint(v@.subrange(lo as int, hi as int), max as nat) == Ok::<
            nat,
            IntErrorKind,
        >(n as nat),
        r matches Err(e) ==> parse_uint(v@.subrange(lo as int, hi as int), max as nat) == Err::<
            nat,
            IntErrorKind,
        >(e),
{
    let ghost s = v@.subrange(lo as int, hi as int);
    if lo == hi {
        return Err(IntErrorKind::Empty);
    }
    let mut i = lo;
    if v[lo] == '+' {
        if hi - lo == 1 {
            return Err(IntErrorKind::InvalidDigit);
        }
        i = lo + 1;
        assert(s.drop_first() =~= v@.subrange(i as int, hi as int));
    } else {
        assert(s =~= v@.subrange(i as int, hi as int));
    }
    let mut acc: u64 = 0;
    while i < hi
        invariant
            lo <= i <= hi <= v@.len(),
            acc <= max,
            s == v@.subrange(lo as int, hi as int),
            parse_uint(s, max as nat) == scan_digits(
                v@.subrange(i as int, hi as int),
                acc as nat,
                max as nat,
            ),
        decreases hi - i,
    {
        let c = v[i];
        let ghost d = v@.subrange(i as int, hi as int);
        assert(d[0] == c);
        assert(d.drop_first() =~= v@.subrange(i + 1, hi as int));
        if !is_digit_char(c) {
            assert(scan_digits(d, acc as nat, max as nat) == Err::<nat, IntErrorKind>(
                IntErrorKind::InvalidDigit,
            ));
            assert(parse_uint(s, max as nat) == Err::<nat, IntErrorKind>(
                IntErrorKind::InvalidDigit,
            ));
            return Err(IntErrorKind::InvalidDigit);
        }
        let dv = (c as u32 - '0' as u32) as u64;
        assert(dv == digit_val(c));
        if dv > max {
            return Err(IntErrorKind::PosOverflow);
        }
        if acc > (max - dv) / 10 {
            assert(acc * 10 + dv > max) by (nonlinear_arith)
                requires
                    acc > (max - dv) / 10,
                    dv <= max,
            ;
            return Err(IntErrorKind::PosOverflow);
        }
        assert(acc * 10 + dv <= max) by (nonlinear_arith)
            requires
                acc <= (max - dv) / 10,
                dv <= max,
        ;
        acc = acc * 10 + dv;
        i = i + 1;
    }
    assert(v@.subrange(i as int, hi as int).len() == 0);
    Ok(acc)
}

/// The decimal digits of `n`, most significant first, without leading zeros.
pub open spec fn decimal(n: nat) -> Seq<char>
    decreases n,
{
    if n < 10 {
        seq![digit_char(n)]
    } else {
        decimal(n / 10).push(digit_char(n % 10))
    }
}

proof fn lemma_digit_char(d: nat)
    requires
        d < 10,
    ensures
        is_digit(digit_char(d)),
        digit_val(digit_char(d)) == d,
        digit_char(d) != '+',
{
}

/// `decimal(n)` is a non-empty run of digits.
pub proof fn lemma_decimal_digits(n: nat)
    ensures
        decimal(n).len() >= 1,
        forall|j: int| 0 <= j < decimal(n).len() ==> is_digit(#[trigger] decimal(n)[j]),
    decreases n,
{
    if n < 10 {
        lemma_digit_char(n);
    } else {
        lemma_decimal_digits(n / 10);
        lemma_digit_char(n % 10);
    }
}

proof fn lemma_scan_digits_push(s: Seq<char>, acc: nat, max: nat, v: nat, c: char)
    requires
        scan_digits(s, acc, max) == Ok::<nat, IntErrorKind>(v),
        is_digit(c),
        v * 10 + digit_val(c) <= max,
    ensures
        scan_digits(s.push(c), acc, max) == Ok::<nat, IntErrorKind>(v * 10 + digit_val(c)),
    decreases s.len(),
{
    let t = s.push(c);
    if s.len() == 0 {
        assert(v == acc);
        assert(t[0] == c);
        assert(t.drop_first() =~= Seq::<char>::empty());
        assert(scan_digits(t.drop_first(), acc * 10 + digit_val(c), max) == Ok::<
            nat,
            IntErrorKind,
        >(acc * 10 + digit_val(c)));
    } else {
        assert(t[0] == s[0]);
        assert(is_digit(s[0]));
        assert(acc * 10 + digit_val(s[0]) <= max);
        assert(t.drop_first() =~= s.drop_first().push(c));
        lemma_scan_digits_push(s.drop_first(), acc * 10 + digit_val(s[0]), max, v, c);
    }
}

proof fn lemma_scan_decimal(n: nat, max: nat)
    requires
        n <= max,
    ensures
        scan_digits(decimal(n), 0, max) == Ok::<nat, IntErrorKind>(n),
    decreases n,
{
    if n < 10 {
        lemma_digit_char(n);
        let s = decimal(n);
        assert(s.drop_first() =~= Seq::<char>::empty());
        assert(scan_digits(s.drop_first(), n, max) == Ok::<nat, IntErrorKind>(n));
    } else {
        lemma_scan_decimal(n / 10, max);
        lemma_digit_char(n % 10);
        lemma_scan_digits_push(decimal(n / 10), 0, max, n / 10, digit_char(n % 10));
        assert((n / 10) * 10 + n % 10 == n);
    }
}

/// Reading back what `decimal` wrote gives the number again.
pub proof fn lemma_parse_decimal(n: nat, max: nat)
    requires
        n <= max,
    ensures
        parse_uint(decimal(n), max) == Ok::<nat, IntErrorKind>(n),
{
    lemma_decimal_digits(n);
    lemma_digit_char(0);
    lemma_scan_decimal(n, max);
    if decimal(n)[0] == '+' {
        assert(is_digit(decimal(n)[0]));
    }
}

/// Appends the decimal digits of `n` to `s`.
pub fn push_decimal(s: &mut String, n: u64)
    ensures
        final(s)@ == old(s)@ + decimal(n as nat),
    decreases n,
{
    if n >= 10 {
        push_decimal(s, n / 10);
    }
    let c = digit_to_char((n % 10) as u8);
    proof {
        assert(old(s)@ + decimal(n as nat) =~= if n < 10 {
            old(s)@.push(digit_char(n as nat))
        } else {
            (old(s)@ + decimal((n / 10) as nat)).push(digit_char((n % 10) as nat))
        });
    }
    push_char(s, c);
}

/// Appends the decimal digits of `n` to `s`, for numbers wider than 64 bits.
pub fn push_decimal_wide(s: &mut String, n: u128)
    ensures
        final(s)@ == old(s)@ + decimal(n as nat),
    decreases n,
{
    if n >= 10 {
        push_decimal_wide(s, n / 10);
    }
    let c = digit_to_char((n % 10) as u8);
    proof {
        assert(old(s)@ + decimal(n as nat) =~= if n < 10 {
            old(s)@.push(digit_char(n as nat))
        } else {
            (old(s)@ + decimal((n / 10) as nat)).push(digit_char((n % 10) as nat))
        });
    }
    push_char(s, c);
}

/// The character of the decimal digit `d`.
pub fn digit_to_char(d: u8) -> (c: char)
    requires
        d < 10,
    ensures
        c == digit_char(d as nat),
{
    match d {
        0 => '0',
        1 => '1',
        2 => '2',
        3 => '3',
        4 => '4',
        5 => '5',
        6 => '6',
        7 => '7',
        8 => '8',
        _ => '9',
    }
}

/// The value of the digits `d` (read left to right, Horner's rule) on top of `acc`.
pub open spec fn value_from(d: Seq<char>, acc: nat) -> nat
    decreases d.len(),
{
    if d.len() == 0 {
        acc
    } else {
        value_from(d.drop_first(), acc * 10 + digit_val(d[0]))
    }
}

/// The number written by the digits `d`.
pub open spec fn digits_value(d: Seq<char>) -> nat {
    value_from(d, 0)
}

/// The index of the first `c` in `w`.
pub open spec fn find_char(w: Seq<char>, c: char) -> Option<nat>
    decreases w.len(),
{
    if w.len() == 0 {
        None
    } else if w[0] == c {
        Some(0)
    } else {
        match find_char(w.drop_first(), c) {
            Some(i) => Some(i + 1),
            None => None,
        }
    }
}

pub proof fn lemma_value_from_grows(d: Seq<char>, acc: nat)
    ensures
        value_from(d, acc) >= acc,
    decreases d.len(),
{
    if d.len() > 0 {
        lemma_value_from_grows(d.drop_first(), acc * 10 + digit_val(d[0]));
    }
}

pub proof fn lemma_scan_all_digits(d: Seq<char>, acc: nat, max: nat)
    requires
        acc <= max,
        forall|j: int| 0 <= j < d.len() ==> is_digit(#[trigger] d[j]),
    ensures
        scan_digits(d, acc, max) == if value_from(d, acc) <= max {
            Ok::<nat, IntErrorKind>(value_from(d, acc))
        } else {
            Err::<nat, IntErrorKind>(IntErrorKind::PosOverflow)
        },
    decreases d.len(),
{
    if d.len() > 0 {
        let a = acc * 10 + digit_val(d[0]);
        assert(is_digit(d[0]));
        lemma_value_from_grows(d.drop_first(), a);
        assert forall|j: int| 0 <= j < d.drop_first().len() implies is_digit(
            #[trigger] d.drop_first()[j],
        ) by {
            assert(d.drop_first()[j] == d[j + 1]);
        }
        if a <= max {
            lemma_scan_all_digits(d.drop_first(), a, max);
        }
        assert(value_from(d, acc) == value_from(d.drop_first(), a));
    }
}

pub proof fn lemma_find_char(w: Seq<char>, c: char, e: int)
    requires
        0 <= e <= w.len(),
        forall|j: int| 0 <= j < e ==> w[j] != c,
        e < w.len() ==> w[e] == c,
    ensures
        e == w.len() ==> find_char(w, c) is None,
        e < w.len() ==> find_char(w, c) == Some(e as nat),
    decreases w.len(),
{
    if w.len() > 0 && e > 0 {
        lemma_find_char(w.drop_first(), c, e - 1);
    }
}


/// Reading the digits of `decimal(n)` gives `n`.
pub proof fn lemma_value_of_decimal(n: nat)
    ensures
        digits_value(decimal(n)) == n,
{
    lemma_decimal_digits(n);
    lemma_scan_decimal(n, n);
    lemma_scan_all_digits(decimal(n), 0, n);
}

} // verus!
