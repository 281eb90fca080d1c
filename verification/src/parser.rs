//! Parsing of textual time expressions and validation of trim ranges.
//!
//! Two grammars are accepted. A string containing `:` is read as a
//! colon-delimited clock value, `MM:SS` or `HH:MM:SS`, each segment a
//! non-negative base-10 integer. Any other string is read as a compact
//! human form such as `90s` or `1m30s`, whose grammar is owned by the
//! `humantime` crate.

use vstd::prelude::*;
use vstd::string::StrSliceExecFns;

use crate::duration::Duration;
use crate::duration::NANOS_PER_SEC;

verus! {

/// Which colon-delimited segment an error is about.
#[derive(Debug, Clone, Copy, PartialEq, Eq, Structural)]
pub enum SegmentField {
    Hours,
    Minutes,
    Seconds,
}

/// Why a time expression was rejected.
#[derive(Debug)]
pub enum ParseError {
    /// The expression matches neither accepted grammar; carries the
    /// original string and, for the compact form, the underlying cause.
    InvalidFormat { input: String, cause: String },
    /// A colon-delimited segment is not a non-negative integer that
    /// fits the representable range; carries the field and the segment.
    InvalidSegment { field: SegmentField, text: String },
    /// The composed duration exceeds the representable range.
    Overflow,
}

/// Why a trim range was rejected.
#[derive(Debug, Clone, Copy, PartialEq, Eq, Structural)]
pub enum RangeError {
    /// The end does not strictly exceed the start.
    NonPositiveRange { start: Duration, end: Duration },
}

// ---------------------------------------------------------------------------
// Decimal segments
// ---------------------------------------------------------------------------

/// `c` is one of the ten ASCII decimal digits.
pub open spec fn is_dec_digit(c: char) -> bool {
    48 <= c as int <= 57
}

/// The numeric value of a decimal digit; zero for any other character.
pub open spec fn digit_val(c: char) -> int {
    if is_dec_digit(c) {
        c as int - 48
    } else {
        0
    }
}

/// A non-empty run of decimal digits.
pub open spec fn all_digits(s: Seq<char>) -> bool {
    s.len() > 0 && forall|i: int| 0 <= i < s.len() ==> is_dec_digit(s[i])
}

/// The base-10 value of a digit string, most significant digit first.
pub open spec fn dec_val(s: Seq<char>) -> int
    decreases s.len(),
{
    if s.len() == 0 {
        0
    } else {
        dec_val(s.drop_last()) * 10 + digit_val(s.last())
    }
}

pub proof fn lemma_dec_val_nonneg(s: Seq<char>)
    ensures
        dec_val(s) >= 0,
    decreases s.len(),
{
    if s.len() > 0 {
        lemma_dec_val_nonneg(s.drop_last());
    }
}

/// Reading one more digit multiplies the value so far by ten and adds it.
pub proof fn lemma_dec_val_push(s: Seq<char>, c: char)
    ensures
        dec_val(s.push(c)) == dec_val(s) * 10 + digit_val(c),
{
    assert(s.push(c).drop_last() =~= s);
    assert(s.push(c).last() == c);
}

/// The value of a digit string is at least the value of any of its prefixes.
pub proof fn lemma_dec_val_prefix_le(s: Seq<char>, j: int)
    requires
        0 <= j <= s.len(),
    ensures
        dec_val(s.take(j)) <= dec_val(s),
    decreases s.len() - j,
{
    if j < s.len() {
        lemma_dec_val_prefix_le(s, j + 1);
        assert(s.take(j + 1).drop_last() =~= s.take(j));
        lemma_dec_val_nonneg(s.take(j));
        assert(dec_val(s.take(j + 1)) == dec_val(s.take(j)) * 10 + digit_val(s.take(j + 1).last()));
        assert(digit_val(s.take(j + 1).last()) >= 0);
    } else {
        assert(s.take(j) =~= s);
    }
}

// ---------------------------------------------------------------------------
// Colon splitting
// ---------------------------------------------------------------------------

/// `s` contains at least one `:`.
pub open spec fn has_colon(s: Seq<char>) -> bool {
    exists|i: int| 0 <= i < s.len() && s[i] == ':'
}

/// `s` contains no `:`.
pub open spec fn colon_free(s: Seq<char>) -> bool {
    forall|i: int| 0 <= i < s.len() ==> s[i] != ':'
}

/// The segments of `s` between its colons, in order; splitting never
/// drops characters, and an empty string has one empty segment.
pub open spec fn colon_segments(s: Seq<char>) -> Seq<Seq<char>>
    decreases s.len(),
{
    if s.len() == 0 {
        seq![Seq::<char>::empty()]
    } else if s[0] == ':' {
        seq![Seq::<char>::empty()] + colon_segments(s.subrange(1, s.len() as int))
    } else {
        let rest = colon_segments(s.subrange(1, s.len() as int));
        seq![seq![s[0]] + rest[0]] + rest.subrange(1, rest.len() as int)
    }
}

pub proof fn lemma_segments_nonempty(s: Seq<char>)
    ensures
        colon_segments(s).len() >= 1,
    decreases s.len(),
{
    if s.len() > 0 {
        lemma_segments_nonempty(s.subrange(1, s.len() as int));
    }
}

/// A colon-free string is a single segment.
pub proof fn lemma_segments_colon_free(s: Seq<char>)
    requires
        colon_free(s),
    ensures
        colon_segments(s) =~= seq![s],
    decreases s.len(),
{
    if s.len() == 0 {
        assert(s =~= Seq::<char>::empty());
        assert(colon_segments(s) =~= seq![s]);
    } else {
        let tail = s.subrange(1, s.len() as int);
        lemma_segments_colon_free(tail);
        lemma_segments_nonempty(tail);
        assert(seq![s[0]] + tail =~= s);
        assert(colon_segments(s) =~= seq![s]);
    }
}

/// Splitting `a : rest` with `a` colon-free yields `a` and then the
/// segments of `rest`.
pub proof fn lemma_segments_split(a: Seq<char>, rest: Seq<char>)
    requires
        colon_free(a),
    ensures
        colon_segments(a + seq![':'] + rest) =~= seq![a] + colon_segments(rest),
    decreases a.len(),
{
    let s = a + seq![':'] + rest;
    if a.len() == 0 {
        assert(s[0] == ':');
        assert(s.subrange(1, s.len() as int) =~= rest);
        assert(a =~= Seq::<char>::empty());
        assert(colon_segments(s) =~= seq![a] + colon_segments(rest));
    } else {
        let a1 = a.subrange(1, a.len() as int);
        assert(s[0] == a[0]);
        assert(s[0] != ':');
        assert(s.subrange(1, s.len() as int) =~= a1 + seq![':'] + rest);
        lemma_segments_split(a1, rest);
        let inner = colon_segments(a1 + seq![':'] + rest);
        assert(inner =~= seq![a1] + colon_segments(rest));
        lemma_segments_nonempty(rest);
        assert(inner[0] == a1);
        assert(seq![s[0]] + inner[0] =~= a);
        assert(inner.subrange(1, inner.len() as int) =~= colon_segments(rest));
        assert(colon_segments(s) =~= seq![a] + colon_segments(rest));
    }
}

// ---------------------------------------------------------------------------
// The value of a colon-delimited time expression
// ---------------------------------------------------------------------------

/// The number of seconds a colon-delimited expression denotes:
/// `MM:SS` is `m*60 + s`, `HH:MM:SS` is `h*3600 + m*60 + s`; `None`
/// when the segment count is wrong or a segment is not a digit run.
pub open spec fn colon_value(s: Seq<char>) -> Option<int> {
    let parts = colon_segments(s);
    if parts.len() == 2 && all_digits(parts[0]) && all_digits(parts[1]) {
        Some(dec_val(parts[0]) * 60 + dec_val(parts[1]))
    } else if parts.len() == 3 && all_digits(parts[0]) && all_digits(parts[1]) && all_digits(
        parts[2],
    ) {
        Some(dec_val(parts[0]) * 3600 + dec_val(parts[1]) * 60 + dec_val(parts[2]))
    } else {
        None
    }
}

/// A segment that `parse_time` accepts: a digit run whose value fits in `u64`.
pub open spec fn seg_ok(p: Seq<char>) -> bool {
    all_digits(p) && dec_val(p) <= u64::MAX
}

/// A string with a colon splits into at least two segments.
pub proof fn lemma_segments_has_colon(s: Seq<char>)
    requires
        has_colon(s),
    ensures
        colon_segments(s).len() >= 2,
    decreases s.len(),
{
    let tail = s.subrange(1, s.len() as int);
    if s[0] == ':' {
        lemma_segments_nonempty(tail);
    } else {
        let i = choose|i: int| 0 <= i < s.len() && s[i] == ':';
        assert(tail[i - 1] == ':');
        lemma_segments_has_colon(tail);
    }
}

// ---------------------------------------------------------------------------
// The verified segment parser
// ---------------------------------------------------------------------------

/// Reads a non-negative base-10 integer; `None` when the string is
/// empty, holds a non-digit, or its value does not fit in `u64`.
fn parse_u64(seg: &str) -> (r: Option<u64>)
    ensures
        r is Some <==> seg_ok(seg@),
        r is Some ==> r->Some_0 == dec_val(seg@),
{
    let n = seg.unicode_len();
    if n == 0 {
        return None;
    }
    let mut acc: u64 = 0;
    let mut i: usize = 0;
    while i < n
        invariant
            0 <= i <= n,
            n == seg@.len(),
            forall|k: int| 0 <= k < i ==> is_dec_digit(seg@[k]),
            acc == dec_val(seg@.take(i as int)),
        decreases n - i,
    {
        let c = seg.get_char(i);
        let v = c as u32;
        if v < 48 || v > 57 {
            assert(!is_dec_digit(seg@[i as int]));
            return None;
        }
        let d = (v - 48) as u64;
        proof {
            assert(seg@.take(i as int).push(seg@[i as int]) =~= seg@.take(i + 1));
            lemma_dec_val_push(seg@.take(i as int), seg@[i as int]);
        }
        let next = match acc.checked_mul(10) {
            Some(t) => t.checked_add(d),
            None => None,
        };
        match next {
            Some(t) => {
                acc = t;
            },
            None => {
                proof {
                    lemma_dec_val_nonneg(seg@.take(i as int));
                    assert(dec_val(seg@.take(i + 1)) > u64::MAX);
                    if all_digits(seg@) {
                        lemma_dec_val_prefix_le(seg@, i + 1);
                    }
                }
                return None;
            },
        }
        i += 1;
    }
    proof {
        assert(seg@.take(n as int) =~= seg@);
    }
    Some(acc)
}

// ---------------------------------------------------------------------------
// A magnitude bound for compact expressions
// ---------------------------------------------------------------------------

/// `c` can begin or continue a unit token of the compact grammar: an
/// ASCII letter or the micro sign.
pub open spec fn is_unit_letter(c: char) -> bool {
    (97 <= c as int <= 122) || (65 <= c as int <= 90) || c as int == 181
}

/// An upper bound, in whole seconds, on what the unit token starting
/// at position `k` multiplies a count by: month tokens are told apart
/// from the other `m`-units by their second letter, the remaining
/// units by their first; sub-second units and seconds stay at one. A
/// token that names no unit the grammar knows stops the parse before
/// its pair contributes, so one is a sound bound for it too.
pub open spec fn unit_bound_at(s: Seq<char>, k: int) -> int {
    if s[k] == 'm' {
        if k + 1 < s.len() && s[k + 1] == 'o' {
            2_630_016
        } else {
            60
        }
    } else if s[k] == 'M' {
        2_630_016
    } else if s[k] == 'h' {
        3600
    } else if s[k] == 'd' {
        86400
    } else if s[k] == 'w' {
        604_800
    } else if s[k] == 'y' {
        31_557_600
    } else {
        1
    }
}

/// The first position at or after `i` past the unit letters there.
pub open spec fn skip_unit_letters(s: Seq<char>, i: int) -> int
    decreases s.len() - i when 0 <= i <= s.len()
{
    if i >= s.len() {
        i
    } else if is_unit_letter(s[i]) {
        skip_unit_letters(s, i + 1)
    } else {
        i
    }
}

proof fn lemma_skip_unit_letters(s: Seq<char>, i: int)
    requires
        0 <= i <= s.len(),
    ensures
        i <= skip_unit_letters(s, i) <= s.len(),
        i < s.len() && is_unit_letter(s[i]) ==> skip_unit_letters(s, i) > i,
    decreases s.len() - i,
{
    if i < s.len() && is_unit_letter(s[i]) {
        lemma_skip_unit_letters(s, i + 1);
    }
}

/// A conservative magnitude for the tail of a compact expression from
/// position `i`, with `v` the value of the digit group read so far.
/// Every digit extends the group, whatever stands between digits
/// short of a unit letter: the grammar reads one number across
/// whitespace and decimal points, and anything else stops it without
/// a contribution, so merging only raises the bound. A unit letter
/// closes the group, weighs it by the unit's bound, and adds slack of
/// four for the sub-second carries of one pair; a group the input
/// ends on gets no unit and the same slack.
pub open spec fn compact_magnitude_from(s: Seq<char>, i: int, v: int) -> int
    decreases s.len() - i when 0 <= i <= s.len() via compact_magnitude_from_decreases
{
    if i >= s.len() {
        v + 4
    } else if is_unit_letter(s[i]) {
        v * unit_bound_at(s, i) + 4 + compact_magnitude_from(s, skip_unit_letters(s, i), 0)
    } else if is_dec_digit(s[i]) {
        compact_magnitude_from(s, i + 1, v * 10 + digit_val(s[i]))
    } else {
        compact_magnitude_from(s, i + 1, v)
    }
}

#[via_fn]
proof fn compact_magnitude_from_decreases(s: Seq<char>, i: int, v: int) {
    if 0 <= i < s.len() && is_unit_letter(s[i]) {
        lemma_skip_unit_letters(s, i);
    }
}

/// The magnitude bound of a whole compact expression.
pub open spec fn compact_magnitude(s: Seq<char>) -> int {
    compact_magnitude_from(s, 0, 0)
}

/// A compact expression is within range when its magnitude bound stays
/// below the representable second count: the grammar can then never
/// accumulate the largest representable value, whatever the units say.
pub open spec fn compact_in_range(s: Seq<char>) -> bool {
    compact_magnitude(s) < u64::MAX
}

proof fn lemma_magnitude_ge(s: Seq<char>, i: int, v: int)
    requires
        0 <= i <= s.len(),
        v >= 0,
    ensures
        compact_magnitude_from(s, i, v) >= v + 4,
    decreases s.len() - i,
{
    if i < s.len() {
        if is_unit_letter(s[i]) {
            lemma_skip_unit_letters(s, i);
            lemma_magnitude_ge(s, skip_unit_letters(s, i), 0);
            assert(v * unit_bound_at(s, i) >= v) by (nonlinear_arith)
                requires
                    v >= 0,
                    unit_bound_at(s, i) >= 1,
            ;
        } else if is_dec_digit(s[i]) {
            lemma_magnitude_ge(s, i + 1, v * 10 + digit_val(s[i]));
        } else {
            lemma_magnitude_ge(s, i + 1, v);
        }
    }
}

proof fn lemma_skip_match(s: Seq<char>, i: int, j: int)
    requires
        0 <= i <= j <= s.len(),
        forall|k: int| i <= k < j ==> is_unit_letter(s[k]),
        j < s.len() ==> !is_unit_letter(s[j]),
    ensures
        skip_unit_letters(s, i) == j,
    decreases j - i,
{
    if i < j {
        lemma_skip_match(s, i + 1, j);
    }
}

/// Decides whether a compact expression is within range. The bound is
/// computed from the text alone, before any grammar is consulted.
fn compact_within_range(s: &str) -> (b: bool)
    ensures
        b <==> compact_in_range(s@),
{
    let n = s.unicode_len();
    let mut i: usize = 0;
    let mut total: u64 = 0;
    let mut v: u64 = 0;
    while i < n
        invariant
            0 <= i <= n,
            n == s@.len(),
            compact_magnitude(s@) == total + compact_magnitude_from(s@, i as int, v as int),
        decreases n - i,
    {
        let c = s.get_char(i);
        let cu = c as u32;
        if 48 <= cu && cu <= 57 {
            let ghost v_next = v * 10 + digit_val(s@[i as int]);
            v = match v.checked_mul(10) {
                Some(t) => match t.checked_add((cu - 48) as u64) {
                    Some(u) => u,
                    None => {
                        proof {
                            lemma_magnitude_ge(s@, i + 1, v_next);
                        }
                        return false;
                    },
                },
                None => {
                    proof {
                        lemma_magnitude_ge(s@, i + 1, v_next);
                    }
                    return false;
                },
            };
            i += 1;
        } else if (97 <= cu && cu <= 122) || (65 <= cu && cu <= 90) || cu == 181 {
            let mult: u64 = if c == 'm' {
                if i + 1 < n && s.get_char(i + 1) == 'o' {
                    2_630_016
                } else {
                    60
                }
            } else if c == 'M' {
                2_630_016
            } else if c == 'h' {
                3600
            } else if c == 'd' {
                86400
            } else if c == 'w' {
                604_800
            } else if c == 'y' {
                31_557_600
            } else {
                1
            };
            let mut j = i + 1;
            loop
                invariant
                    i < j <= n,
                    n == s@.len(),
                    forall|k: int| i <= k < j ==> is_unit_letter(s@[k]),
                ensures
                    i < j <= n,
                    forall|k: int| i <= k < j ==> is_unit_letter(s@[k]),
                    j == n || !is_unit_letter(s@[j as int]),
                decreases n - j,
            {
                if j == n {
                    break;
                }
                let d = s.get_char(j);
                let du = d as u32;
                if !((97 <= du && du <= 122) || (65 <= du && du <= 90) || du == 181) {
                    break;
                }
                j += 1;
            }
            proof {
                lemma_skip_match(s@, i as int, j as int);
                lemma_magnitude_ge(s@, j as int, 0);
                assert(mult == unit_bound_at(s@, i as int));
            }
            let term = match v.checked_mul(mult) {
                Some(t) => t,
                None => {
                    return false;
                },
            };
            total = match term.checked_add(4) {
                Some(t) => match total.checked_add(t) {
                    Some(u) => u,
                    None => {
                        return false;
                    },
                },
                None => {
                    return false;
                },
            };
            v = 0;
            i = j;
        } else {
            i += 1;
        }
    }
    let flushed = match v.checked_add(4) {
        Some(t) => t,
        None => {
            return false;
        },
    };
    match total.checked_add(flushed) {
        Some(m) => m < u64::MAX,
        None => false,
    }
}

// ---------------------------------------------------------------------------
// The compact human form, delegated to humantime
// ---------------------------------------------------------------------------

/// The duration, as whole seconds and a nanosecond remainder, that the
/// compact human grammar assigns to `s`; `None` where that grammar
/// rejects `s`. The grammar itself is owned by the `humantime` crate.
pub uninterp spec fn compact_duration_of(s: Seq<char>) -> Option<(u64, u32)>;

/// Relies on humantime::parse_duration: its result depends on the
/// characters of the input alone, and the sub-second part of the
/// std::time::Duration it returns is always below one second.
///
/// The range bound is what keeps the call total. parse_duration adds
/// each number-unit pair onto a running std::time::Duration, and that
/// construction carries an unnormalized nanosecond count of exactly
/// one second into the seconds, which panics only when the seconds
/// already hold the largest representable value. One number is read
/// across whitespace and, for its fraction, a decimal point, so a
/// pair's digits span everything up to its unit letter; the bound
/// merges digit groups the same way, splitting only at unit letters.
/// A pair's two additions to the seconds then total at most its
/// group's value times the bound of the unit token that closes it
/// (a token naming no known unit adds nothing, since the parse stops
/// there in error; a trailing group without a unit does the same),
/// plus four for the nanosecond carries; so under `compact_in_range`
/// the seconds stay below that largest value and the panic is
/// unreachable.
#[verifier::external_body]
fn parse_compact(s: &str) -> (r: Result<Duration, String>)
    requires
        compact_in_range(s@),
    ensures
        match r {
            Ok(d) => compact_duration_of(s@) == Some((d.secs, d.nanos)) && d.nanos
                < NANOS_PER_SEC,
            Err(_) => compact_duration_of(s@) is None,
        },
{
    match humantime::parse_duration(s) {
        Ok(d) => Ok(Duration { secs: d.as_secs(), nanos: d.subsec_nanos() }),
        Err(e) => Err(format!("{}", e)),
    }
}

// ---------------------------------------------------------------------------
// parse_time
// ---------------------------------------------------------------------------

/// The error `parse_time` returns for a colon expression it rejects:
/// a wrong segment count is an invalid format; a bad segment names the
/// first offending field with its text; two or three good segments
/// that compose past the representable range overflow.
pub open spec fn colon_err(s: Seq<char>, e: ParseError) -> bool {
    let parts = colon_segments(s);
    if parts.len() == 2 {
        if !seg_ok(parts[0]) {
            e matches ParseError::InvalidSegment { field: SegmentField::Minutes, text }
                && text@ == parts[0]
        } else if !seg_ok(parts[1]) {
            e matches ParseError::InvalidSegment { field: SegmentField::Seconds, text }
                && text@ == parts[1]
        } else {
            e is Overflow
        }
    } else if parts.len() == 3 {
        if !seg_ok(parts[0]) {
            e matches ParseError::InvalidSegment { field: SegmentField::Hours, text }
                && text@ == parts[0]
        } else if !seg_ok(parts[1]) {
            e matches ParseError::InvalidSegment { field: SegmentField::Minutes, text }
                && text@ == parts[1]
        } else if !seg_ok(parts[2]) {
            e matches ParseError::InvalidSegment { field: SegmentField::Seconds, text }
                && text@ == parts[2]
        } else {
            e is Overflow
        }
    } else {
        e matches ParseError::InvalidFormat { input, cause } && input@ == s
    }
}

/// Parses a time expression. A string with a colon is read as `MM:SS`
/// or `HH:MM:SS` and denotes `h*3600 + m*60 + s` whole seconds; any
/// other string is handed to the compact human grammar, which is
/// accepted wholesale as the humantime crate defines it — including
/// the bare `0` it allows without a unit. A compact expression whose
/// digit runs and unit letters could compose past the representable
/// second count is rejected as overflowing before the grammar is
/// consulted.
#[verifier::rlimit(100)]
pub fn parse_time(s: &str) -> (r: Result<Duration, ParseError>)
    ensures
        has_colon(s@) ==> ((r is Ok) <==> (colon_value(s@) is Some && colon_value(s@)->Some_0
            <= u64::MAX)),
        has_colon(s@) && r is Ok ==> r->Ok_0.secs == colon_value(s@)->Some_0 && r->Ok_0.nanos
            == 0,
        has_colon(s@) && r is Err ==> colon_err(s@, r->Err_0),
        !has_colon(s@) && compact_in_range(s@) ==> ((r is Ok) <==> compact_duration_of(s@)
            is Some),
        !has_colon(s@) && compact_in_range(s@) && r is Ok ==> compact_duration_of(s@) == Some(
            (r->Ok_0.secs, r->Ok_0.nanos),
        ),
        !has_colon(s@) && compact_in_range(s@) && r is Err ==> (
        r->Err_0 matches ParseError::InvalidFormat { input, cause } && input@ == s@),
        !has_colon(s@) && !compact_in_range(s@) ==> r matches Err(ParseError::Overflow),
        r is Ok ==> r->Ok_0.wf(),
{
    let n = s.unicode_len();
    let mut i: usize = 0;
    let mut c1: Option<usize> = None;
    let mut c2: Option<usize> = None;
    let mut c3: Option<usize> = None;
    while i < n
        invariant
            0 <= i <= n,
            n == s@.len(),
            c1 is None ==> c2 is None,
            c2 is None ==> c3 is None,
            c1 is None ==> (forall|k: int| 0 <= k < i ==> s@[k] != ':'),
            c1 matches Some(p) ==> p < i && s@[p as int] == ':' && (forall|k: int|
                0 <= k < p ==> s@[k] != ':') && (c2 is None ==> (forall|k: int|
                p < k < i ==> s@[k] != ':')),
            c2 matches Some(q) ==> (c1 matches Some(p) && p < q < i && s@[q as int] == ':'
                && (forall|k: int| p < k < q ==> s@[k] != ':') && (c3 is None ==> (forall|k: int|
                q < k < i ==> s@[k] != ':'))),
            c3 matches Some(t) ==> (c2 matches Some(q) && q < t < i && s@[t as int] == ':'),
        decreases n - i,
    {
        let c = s.get_char(i);
        if c == ':' {
            if c1.is_none() {
                c1 = Some(i);
            } else if c2.is_none() {
                c2 = Some(i);
            } else if c3.is_none() {
                c3 = Some(i);
            }
        }
        i += 1;
    }
    match (c1, c2, c3) {
        (None, _, _) => {
            assert(!has_colon(s@));
            if !compact_within_range(s) {
                return Err(ParseError::Overflow);
            }
            match parse_compact(s) {
                Ok(d) => Ok(d),
                Err(cause) => Err(ParseError::InvalidFormat { input: s.to_owned(), cause }),
            }
        },
        (Some(p), None, _) => {
            let a = s.substring_char(0, p);
            let b = s.substring_char(p + 1, n);
            proof {
                assert(a@ + seq![':'] + b@ =~= s@);
                lemma_segments_colon_free(b@);
                lemma_segments_split(a@, b@);
                assert(colon_segments(s@) =~= seq![a@, b@]);
            }
            match (parse_u64(a), parse_u64(b)) {
                (Some(m), Some(sec)) => {
                    proof {
                        lemma_dec_val_nonneg(a@);
                        lemma_dec_val_nonneg(b@);
                    }
                    match m.checked_mul(60) {
                        Some(t) => match t.checked_add(sec) {
                            Some(total) => Ok(Duration { secs: total, nanos: 0 }),
                            None => Err(ParseError::Overflow),
                        },
                        None => Err(ParseError::Overflow),
                    }
                },
                (None, _) => Err(
                    ParseError::InvalidSegment {
                        field: SegmentField::Minutes,
                        text: a.to_owned(),
                    },
                ),
                (Some(_), None) => Err(
                    ParseError::InvalidSegment {
                        field: SegmentField::Seconds,
                        text: b.to_owned(),
                    },
                ),
            }
        },
        (Some(p), Some(q), None) => {
            let a = s.substring_char(0, p);
            let b = s.substring_char(p + 1, q);
            let c = s.substring_char(q + 1, n);
            proof {
                assert(b@ + seq![':'] + c@ =~= s@.subrange(p + 1, n as int));
                assert(a@ + seq![':'] + (b@ + seq![':'] + c@) =~= s@);
                lemma_segments_colon_free(c@);
                lemma_segments_split(b@, c@);
                lemma_segments_split(a@, b@ + seq![':'] + c@);
                assert(colon_segments(s@) =~= seq![a@, b@, c@]);
            }
            match (parse_u64(a), parse_u64(b), parse_u64(c)) {
                (Some(h), Some(m), Some(sec)) => {
                    proof {
                        lemma_dec_val_nonneg(a@);
                        lemma_dec_val_nonneg(b@);
                        lemma_dec_val_nonneg(c@);
                    }
                    let hs = match h.checked_mul(3600) {
                        Some(t) => t,
                        None => {
                            return Err(ParseError::Overflow);
                        },
                    };
                    let ms = match m.checked_mul(60) {
                        Some(t) => t,
                        None => {
                            return Err(ParseError::Overflow);
                        },
                    };
                    let t1 = match hs.checked_add(ms) {
                        Some(t) => t,
                        None => {
                            return Err(ParseError::Overflow);
                        },
                    };
                    match t1.checked_add(sec) {
                        Some(total) => Ok(Duration { secs: total, nanos: 0 }),
                        None => Err(ParseError::Overflow),
                    }
                },
                (None, _, _) => Err(
                    ParseError::InvalidSegment { field: SegmentField::Hours, text: a.to_owned() },
                ),
                (Some(_), None, _) => Err(
                    ParseError::InvalidSegment {
                        field: SegmentField::Minutes,
                        text: b.to_owned(),
                    },
                ),
                (Some(_), Some(_), None) => Err(
                    ParseError::InvalidSegment {
                        field: SegmentField::Seconds,
                        text: c.to_owned(),
                    },
                ),
            }
        },
        (Some(p), Some(q), Some(t)) => {
            proof {
                let a = s@.subrange(0, p as int);
                let b = s@.subrange(p + 1, q as int);
                let rest = s@.subrange(q + 1, n as int);
                assert(b + seq![':'] + rest =~= s@.subrange(p + 1, n as int));
                assert(a + seq![':'] + (b + seq![':'] + rest) =~= s@);
                assert(rest[t - q - 1] == ':');
                lemma_segments_has_colon(rest);
                lemma_segments_split(b, rest);
                lemma_segments_split(a, b + seq![':'] + rest);
                assert(colon_segments(s@).len() >= 4);
            }
            Err(ParseError::InvalidFormat { input: s.to_owned(), cause: String::new() })
        },
    }
}

// ---------------------------------------------------------------------------
// Range validation
// ---------------------------------------------------------------------------

/// Confirms that a trimmable interval exists: succeeds exactly when
/// `start` is strictly before `end`; a zero-length range is invalid.
pub fn validate_range(start: Duration, end: Duration) -> (r: Result<(), RangeError>)
    requires
        start.wf(),
        end.wf(),
    ensures
        r is Ok <==> start.total_nanos() < end.total_nanos(),
        r is Err ==> r->Err_0 == (RangeError::NonPositiveRange { start, end }),
{
    if start.secs > end.secs || (start.secs == end.secs && start.nanos >= end.nanos) {
        Err(RangeError::NonPositiveRange { start, end })
    } else {
        Ok(())
    }
}

// ---------------------------------------------------------------------------
// Grammar laws
// ---------------------------------------------------------------------------

/// Digits are never colons, so a digit run is one whole segment.
pub proof fn lemma_digits_colon_free(s: Seq<char>)
    requires
        all_digits(s),
    ensures
        colon_free(s),
{
    assert forall|i: int| 0 <= i < s.len() implies s[i] != ':' by {
        assert(is_dec_digit(s[i]));
    }
}

/// Law: a colon expression of two digit segments `M:S` denotes exactly
/// `m*60 + s` seconds, for every pair of segment values.
pub proof fn lemma_colon_value_two(m: Seq<char>, s: Seq<char>)
    requires
        all_digits(m),
        all_digits(s),
    ensures
        colon_value(m + seq![':'] + s) == Some(dec_val(m) * 60 + dec_val(s)),
{
    lemma_digits_colon_free(m);
    lemma_digits_colon_free(s);
    lemma_segments_colon_free(s);
    lemma_segments_split(m, s);
    assert(colon_segments(m + seq![':'] + s) =~= seq![m, s]);
}

/// Law: a colon expression of three digit segments `H:M:S` denotes
/// exactly `h*3600 + m*60 + s` seconds, for every triple of values.
pub proof fn lemma_colon_value_three(h: Seq<char>, m: Seq<char>, s: Seq<char>)
    requires
        all_digits(h),
        all_digits(m),
        all_digits(s),
    ensures
        colon_value(h + seq![':'] + m + seq![':'] + s) == Some(
            dec_val(h) * 3600 + dec_val(m) * 60 + dec_val(s),
        ),
{
    lemma_digits_colon_free(h);
    lemma_digits_colon_free(m);
    lemma_digits_colon_free(s);
    lemma_segments_colon_free(s);
    lemma_segments_split(m, s);
    lemma_segments_split(h, m + seq![':'] + s);
    assert(h + seq![':'] + m + seq![':'] + s =~= h + seq![':'] + (m + seq![':'] + s));
    assert(colon_segments(h + seq![':'] + m + seq![':'] + s) =~= seq![h, m, s]);
}

} // verus!
