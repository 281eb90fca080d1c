//! Formatting of durations into the timestamp arguments an external
//! transcoder expects, derivation of the default output file name, and
//! assembly of the full argument list for one transcoding call.

use vstd::prelude::*;
use vstd::string::StrSliceExecFns;
use vstd::string::StringExecFns;

use crate::duration::Duration;
use crate::duration::NANOS_PER_SEC;
use crate::parser::all_digits;
use crate::parser::colon_value;
use crate::parser::dec_val;
use crate::parser::digit_val;
use crate::parser::is_dec_digit;
use crate::parser::lemma_colon_value_three;
use crate::parser::lemma_dec_val_push;

verus! {

// ---------------------------------------------------------------------------
// Decimal rendering
// ---------------------------------------------------------------------------

/// The decimal digit with value `d`; `'0'` for anything ten or larger.
pub open spec fn char_of_digit(d: int) -> char {
    if d == 1 {
        '1'
    } else if d == 2 {
        '2'
    } else if d == 3 {
        '3'
    } else if d == 4 {
        '4'
    } else if d == 5 {
        '5'
    } else if d == 6 {
        '6'
    } else if d == 7 {
        '7'
    } else if d == 8 {
        '8'
    } else if d == 9 {
        '9'
    } else {
        '0'
    }
}

/// The decimal rendering of `n`, most significant digit first, no
/// leading zeros except for `n == 0` itself.
pub open spec fn dec_digits(n: int) -> Seq<char>
    decreases n,
{
    if n < 10 {
        seq![char_of_digit(n)]
    } else {
        dec_digits(n / 10) + seq![char_of_digit(n % 10)]
    }
}

/// The rendering of `n` padded with one leading zero to at least two
/// digits, as a zero-padded clock field.
pub open spec fn pad2(n: int) -> Seq<char> {
    if n < 10 {
        seq!['0'] + dec_digits(n)
    } else {
        dec_digits(n)
    }
}

/// The `HH:MM:SS` rendering of a whole number of seconds: each field
/// zero-padded to two digits, the hour field widening beyond two
/// digits rather than truncating.
pub open spec fn timestamp_seq(secs: int) -> Seq<char> {
    pad2(secs / 3600) + seq![':'] + pad2((secs % 3600) / 60) + seq![':'] + pad2(secs % 60)
}

proof fn lemma_char_of_digit_val(d: int)
    requires
        0 <= d <= 9,
    ensures
        is_dec_digit(char_of_digit(d)),
        digit_val(char_of_digit(d)) == d,
{
}

pub proof fn lemma_dec_digits_all_digits(n: int)
    requires
        n >= 0,
    ensures
        all_digits(dec_digits(n)),
    decreases n,
{
    if n < 10 {
        lemma_char_of_digit_val(n);
    } else {
        lemma_dec_digits_all_digits(n / 10);
        lemma_char_of_digit_val(n % 10);
    }
}

/// Rendering and reading back are inverse: the decimal digits of `n`
/// evaluate to `n`.
pub proof fn lemma_dec_val_of_dec_digits(n: int)
    requires
        n >= 0,
    ensures
        dec_val(dec_digits(n)) == n,
    decreases n,
{
    if n < 10 {
        lemma_char_of_digit_val(n);
        assert(seq![char_of_digit(n)].drop_last() =~= Seq::<char>::empty());
        assert(dec_val(Seq::<char>::empty()) == 0);
    } else {
        lemma_dec_val_of_dec_digits(n / 10);
        lemma_char_of_digit_val(n % 10);
        lemma_dec_val_push(dec_digits(n / 10), char_of_digit(n % 10));
        assert(dec_digits(n / 10).push(char_of_digit(n % 10)) =~= dec_digits(n));
    }
}

/// A leading zero does not change the value of a digit string.
pub proof fn lemma_dec_val_leading_zero(s: Seq<char>)
    ensures
        dec_val(seq!['0'] + s) == dec_val(s),
    decreases s.len(),
{
    if s.len() == 0 {
        assert(seq!['0'] + s =~= seq!['0']);
        assert(seq!['0'].drop_last() =~= Seq::<char>::empty());
        assert(dec_val(Seq::<char>::empty()) == 0);
        assert(digit_val('0') == 0);
    } else {
        lemma_dec_val_leading_zero(s.drop_last());
        assert((seq!['0'] + s).drop_last() =~= seq!['0'] + s.drop_last());
        assert((seq!['0'] + s).last() == s.last());
    }
}

pub proof fn lemma_pad2_digits(n: int)
    requires
        n >= 0,
    ensures
        all_digits(pad2(n)),
        dec_val(pad2(n)) == n,
{
    lemma_dec_digits_all_digits(n);
    lemma_dec_val_of_dec_digits(n);
    if n < 10 {
        lemma_dec_val_leading_zero(dec_digits(n));
        assert(pad2(n)[0] == '0');
        assert(forall|i: int| 1 <= i < pad2(n).len() ==> pad2(n)[i] == dec_digits(n)[i - 1]);
    }
}

// ---------------------------------------------------------------------------
// Executable rendering
// ---------------------------------------------------------------------------

/// The one-character string holding the decimal digit of value `d`.
fn digit_str(d: u64) -> (r: &'static str)
    requires
        d <= 9,
    ensures
        r@ =~= seq![char_of_digit(d as int)],
{
    if d == 1 {
        proof {
            reveal_strlit("1");
        }
        "1"
    } else if d == 2 {
        proof {
            reveal_strlit("2");
        }
        "2"
    } else if d == 3 {
        proof {
            reveal_strlit("3");
        }
        "3"
    } else if d == 4 {
        proof {
            reveal_strlit("4");
        }
        "4"
    } else if d == 5 {
        proof {
            reveal_strlit("5");
        }
        "5"
    } else if d == 6 {
        proof {
            reveal_strlit("6");
        }
        "6"
    } else if d == 7 {
        proof {
            reveal_strlit("7");
        }
        "7"
    } else if d == 8 {
        proof {
            reveal_strlit("8");
        }
        "8"
    } else if d == 9 {
        proof {
            reveal_strlit("9");
        }
        "9"
    } else {
        proof {
            reveal_strlit("0");
        }
        "0"
    }
}

/// Renders `n` in decimal, most significant digit first.
fn u64_dec(n: u64) -> (r: String)
    ensures
        r@ =~= dec_digits(n as int),
    decreases n,
{
    if n < 10 {
        digit_str(n).to_owned()
    } else {
        let mut prefix = u64_dec(n / 10);
        prefix.append(digit_str(n % 10));
        prefix
    }
}

/// Renders `n` as a clock field, zero-padded to at least two digits.
fn pad2_str(n: u64) -> (r: String)
    ensures
        r@ =~= pad2(n as int),
{
    if n < 10 {
        proof {
            reveal_strlit("0");
        }
        let mut r = "0".to_owned();
        let digits = u64_dec(n);
        r.append(digits.as_str());
        r
    } else {
        u64_dec(n)
    }
}

/// Renders a duration as `HH:MM:SS`, zero-padded, whole seconds only;
/// an hour count of one hundred or more keeps its full width.
pub fn format_timestamp(d: Duration) -> (r: String)
    ensures
        r@ =~= timestamp_seq(d.secs as int),
{
    proof {
        reveal_strlit(":");
    }
    let h = d.secs / 3600;
    let m = (d.secs % 3600) / 60;
    let s = d.secs % 60;
    let mut r = pad2_str(h);
    r.append(":");
    let mm = pad2_str(m);
    r.append(mm.as_str());
    r.append(":");
    let ss = pad2_str(s);
    r.append(ss.as_str());
    r
}

// ---------------------------------------------------------------------------
// The round trip from formatting back through parsing
// ---------------------------------------------------------------------------

/// Law: for any whole-second duration below one hundred hours, feeding
/// the `HH:MM:SS` rendering back to the parser yields the same number
/// of seconds.
pub proof fn lemma_format_parse_round_trip(secs: int)
    requires
        0 <= secs < 360000,
    ensures
        colon_value(timestamp_seq(secs)) == Some(secs),
{
    let h = secs / 3600;
    let m = (secs % 3600) / 60;
    let s = secs % 60;
    lemma_pad2_digits(h);
    lemma_pad2_digits(m);
    lemma_pad2_digits(s);
    lemma_colon_value_three(pad2(h), pad2(m), pad2(s));
    assert(timestamp_seq(secs) =~= pad2(h) + seq![':'] + pad2(m) + seq![':'] + pad2(s));
    assert(h * 3600 + m * 60 + s == secs) by {
        assert(secs == 3600 * (secs / 3600) + secs % 3600);
        assert(secs % 3600 == 60 * ((secs % 3600) / 60) + (secs % 3600) % 60);
        assert((secs % 3600) % 60 == secs % 60) by (nonlinear_arith)
            requires
                0 <= secs,
        ;
    }
}

// ---------------------------------------------------------------------------
// File names, stems and extensions
// ---------------------------------------------------------------------------

/// `s` without its trailing path separators.
pub open spec fn strip_trailing_slashes(s: Seq<char>) -> Seq<char>
    decreases s.len(),
{
    if s.len() > 0 && s.last() == '/' {
        strip_trailing_slashes(s.drop_last())
    } else {
        s
    }
}

/// The part of `s` after the last occurrence of `c`; all of `s` when
/// `c` does not occur.
pub open spec fn suffix_after_last(s: Seq<char>, c: char) -> Seq<char>
    decreases s.len(),
{
    if s.len() == 0 {
        s
    } else if s.last() == c {
        Seq::<char>::empty()
    } else {
        suffix_after_last(s.drop_last(), c).push(s.last())
    }
}

/// The file-name portion of a path: what follows the last separator,
/// trailing separators ignored.
pub open spec fn file_name_of(s: Seq<char>) -> Seq<char> {
    suffix_after_last(strip_trailing_slashes(s), '/')
}

/// A file name carries an extension when a dot stands after its first
/// character; a leading dot alone marks a hidden file, not an extension.
pub open spec fn has_real_ext(name: Seq<char>) -> bool {
    exists|i: int| 1 <= i < name.len() && name[i] == '.'
}

/// The extension of the file name of `s`, as the part after its last
/// dot; `None` for no dot, a hidden file's leading dot alone, or the
/// parent-directory name.
pub open spec fn ext_of(s: Seq<char>) -> Option<Seq<char>> {
    let name = file_name_of(s);
    if name == seq!['.', '.'] {
        None
    } else if has_real_ext(name) {
        Some(suffix_after_last(name, '.'))
    } else {
        None
    }
}

/// The derived output name: the input's file name with `clip` inserted
/// before the extension, the container defaulting to `mp4` when the
/// input has none.
pub open spec fn derived_output_of(s: Seq<char>) -> Seq<char> {
    let name = file_name_of(s);
    if has_real_ext(name) {
        let ext = suffix_after_last(name, '.');
        name.take(name.len() - ext.len() - 1) + "clip."@ + ext
    } else {
        name + "clip."@ + "mp4"@
    }
}

/// If nothing occurs at or after position `k` but `c` stands just
/// before it, the suffix after the last `c` starts at `k`.
proof fn lemma_suffix_after_last_char(s: Seq<char>, k: int, c: char)
    requires
        0 <= k <= s.len(),
        forall|i: int| k <= i < s.len() ==> s[i] != c,
        k > 0 ==> s[k - 1] == c,
    ensures
        suffix_after_last(s, c) =~= s.subrange(k, s.len() as int),
    decreases s.len(),
{
    if s.len() == 0 {
    } else if k == s.len() {
        assert(s.last() == c);
    } else {
        assert(s.last() != c);
        lemma_suffix_after_last_char(s.drop_last(), k, c);
        assert(suffix_after_last(s, c) =~= s.drop_last().subrange(k, s.len() - 1).push(s.last()));
    }
}

/// If everything at or after position `e` is a separator but what
/// stands just before it is not, stripping ends exactly at `e`.
proof fn lemma_strip_trailing(s: Seq<char>, e: int)
    requires
        0 <= e <= s.len(),
        forall|i: int| e <= i < s.len() ==> s[i] == '/',
        e > 0 ==> s[e - 1] != '/',
    ensures
        strip_trailing_slashes(s) =~= s.take(e),
    decreases s.len(),
{
    if e == s.len() {
        assert(s.take(e) =~= s);
    } else {
        assert(s.last() == '/');
        lemma_strip_trailing(s.drop_last(), e);
        assert(s.drop_last().take(e) =~= s.take(e));
    }
}

/// Locates the file-name portion of `s` as the index range it occupies.
fn file_name_bounds(s: &str) -> (r: (usize, usize))
    ensures
        r.0 <= r.1 <= s@.len(),
        file_name_of(s@) == s@.subrange(r.0 as int, r.1 as int),
        forall|k: int| r.0 <= k < r.1 ==> s@[k] != '/',
{
    let n = s.unicode_len();
    let mut end = n;
    loop
        invariant
            end <= n,
            n == s@.len(),
            forall|k: int| end <= k < n ==> s@[k] == '/',
        ensures
            end <= n,
            forall|k: int| end <= k < n ==> s@[k] == '/',
            end == 0 || s@[end - 1] != '/',
        decreases end,
    {
        if end == 0 {
            break;
        }
        let c = s.get_char(end - 1);
        if c != '/' {
            break;
        }
        end = end - 1;
    }
    proof {
        lemma_strip_trailing(s@, end as int);
    }
    let mut start = end;
    loop
        invariant
            start <= end <= n,
            n == s@.len(),
            forall|k: int| start <= k < end ==> s@[k] != '/',
        ensures
            start <= end,
            forall|k: int| start <= k < end ==> s@[k] != '/',
            start == 0 || s@[start - 1] == '/',
        decreases start,
    {
        if start == 0 {
            break;
        }
        let c = s.get_char(start - 1);
        if c == '/' {
            break;
        }
        start = start - 1;
    }
    proof {
        let stripped = s@.take(end as int);
        lemma_suffix_after_last_char(stripped, start as int, '/');
        assert(stripped.subrange(start as int, end as int) =~= s@.subrange(
            start as int,
            end as int,
        ));
    }
    (start, end)
}

/// Locates the last dot of the range `[start, end)` of `s`: afterwards
/// `[j, end)` is dot-free and, unless `j == start`, a dot stands at
/// `j - 1`.
fn last_dot_bound(s: &str, start: usize, end: usize) -> (j: usize)
    requires
        start <= end <= s@.len(),
    ensures
        start <= j <= end,
        forall|k: int| j <= k < end ==> s@[k] != '.',
        j > start ==> s@[j - 1] == '.',
{
    let mut j = end;
    loop
        invariant
            start <= j <= end <= s@.len(),
            forall|k: int| j <= k < end ==> s@[k] != '.',
        ensures
            start <= j <= end,
            forall|k: int| j <= k < end ==> s@[k] != '.',
            j == start || s@[j - 1] == '.',
        decreases j,
    {
        if j == start {
            break;
        }
        let c = s.get_char(j - 1);
        if c == '.' {
            break;
        }
        j = j - 1;
    }
    j
}

/// Derives the default output file name from the input's: `clip` is
/// inserted between stem and extension, and an input without an
/// extension gets the `mp4` container. Directory components are
/// dropped. The input must have a proper file-name portion: not empty
/// and not a current- or parent-directory name.
pub fn derive_output(input: &str) -> (r: String)
    requires
        file_name_of(input@).len() > 0,
        file_name_of(input@) != seq!['.'],
        file_name_of(input@) != seq!['.', '.'],
    ensures
        r@ == derived_output_of(input@),
{
    let (start, end) = file_name_bounds(input);
    proof {
        assert(file_name_of(input@).len() == end - start);
    }
    let j = last_dot_bound(input, start, end);
    let ghost name = file_name_of(input@);
    if j - start >= 2 {
        proof {
            assert(name[j - 1 - start] == input@[j - 1]);
            assert(has_real_ext(name));
            lemma_suffix_after_last_char(name, j - start, '.');
            assert(name.subrange(j - start, name.len() as int) =~= input@.subrange(
                j as int,
                end as int,
            ));
            assert(name.take(name.len() - (end - j) - 1) =~= input@.subrange(
                start as int,
                j - 1,
            ));
        }
        let stem = input.substring_char(start, j - 1);
        let ext = input.substring_char(j, end);
        let mut out = stem.to_owned();
        out.append("clip.");
        out.append(ext);
        out
    } else {
        proof {
            assert forall|i: int| 1 <= i < name.len() implies name[i] != '.' by {
                assert(name[i] == input@[start + i]);
            }
            assert(!has_real_ext(name));
        }
        let name_str = input.substring_char(start, end);
        let mut out = name_str.to_owned();
        out.append("clip.");
        out.append("mp4");
        out
    }
}

// ---------------------------------------------------------------------------
// Codec selection
// ---------------------------------------------------------------------------

/// The extension spells `avi`, compared without regard to ASCII case.
pub open spec fn is_avi_ext(e: Seq<char>) -> bool {
    e.len() == 3 && (e[0] == 'a' || e[0] == 'A') && (e[1] == 'v' || e[1] == 'V') && (e[2] == 'i'
        || e[2] == 'I')
}

/// The video codec the transcoder is told to use, from the output
/// container: `mpeg4` for `avi`, `libx264` otherwise.
pub open spec fn video_codec_of(output: Seq<char>) -> Seq<char> {
    match ext_of(output) {
        Some(e) => if is_avi_ext(e) {
            "mpeg4"@
        } else {
            "libx264"@
        },
        None => "libx264"@,
    }
}

/// The audio codec, chosen with the video codec: `mp3` for `avi`,
/// `aac` otherwise.
pub open spec fn audio_codec_of(output: Seq<char>) -> Seq<char> {
    match ext_of(output) {
        Some(e) => if is_avi_ext(e) {
            "mp3"@
        } else {
            "aac"@
        },
        None => "aac"@,
    }
}

/// Picks the codec pair for an output path, by its extension; the
/// comparison with `avi` ignores ASCII case.
pub fn codecs_for_output(output: &str) -> (r: (&'static str, &'static str))
    ensures
        r.0@ == video_codec_of(output@),
        r.1@ == audio_codec_of(output@),
{
    let (start, end) = file_name_bounds(output);
    let ghost name = file_name_of(output@);
    let is_dotdot = end - start == 2 && output.get_char(start) == '.' && output.get_char(
        start + 1,
    ) == '.';
    proof {
        if is_dotdot {
            assert(name =~= seq!['.', '.']);
        } else if end - start == 2 {
            assert(name != seq!['.', '.']) by {
                assert(name[0] == output@[start as int] && name[1] == output@[start + 1]);
            }
        } else {
            assert(name != seq!['.', '.']) by {
                assert(name.len() != 2);
            }
        }
    }
    let mut avi = false;
    if !is_dotdot {
        let j = last_dot_bound(output, start, end);
        if j - start >= 2 {
            proof {
                assert(name[j - 1 - start] == output@[j - 1]);
                assert(has_real_ext(name));
                lemma_suffix_after_last_char(name, j - start, '.');
                assert(name.subrange(j - start, name.len() as int) =~= output@.subrange(
                    j as int,
                    end as int,
                ));
            }
            if end - j == 3 {
                let c0 = output.get_char(j);
                let c1 = output.get_char(j + 1);
                let c2 = output.get_char(j + 2);
                avi = (c0 == 'a' || c0 == 'A') && (c1 == 'v' || c1 == 'V') && (c2 == 'i' || c2
                    == 'I');
            }
        } else {
            proof {
                assert forall|i: int| 1 <= i < name.len() implies name[i] != '.' by {
                    assert(name[i] == output@[start + i]);
                }
                assert(!has_real_ext(name));
            }
        }
    }
    proof {
        assert(avi <==> (ext_of(output@) is Some && is_avi_ext(ext_of(output@)->Some_0)));
    }
    if avi {
        ("mpeg4", "mp3")
    } else {
        ("libx264", "aac")
    }
}

// ---------------------------------------------------------------------------
// The clip span and the full argument list
// ---------------------------------------------------------------------------

/// The exact span between a validated start and end; never underflows,
/// because range validation has established `start < end`.
pub fn clip_duration(start: Duration, end: Duration) -> (r: Duration)
    requires
        start.wf(),
        end.wf(),
        start.total_nanos() < end.total_nanos(),
    ensures
        r.wf(),
        r.total_nanos() == end.total_nanos() - start.total_nanos(),
{
    if end.nanos >= start.nanos {
        Duration { secs: end.secs - start.secs, nanos: end.nanos - start.nanos }
    } else {
        Duration {
            secs: end.secs - start.secs - 1,
            nanos: (end.nanos + NANOS_PER_SEC) - start.nanos,
        }
    }
}

/// Builds the argument list of one transcoding call: seek to the start
/// timestamp, read the input, transcode exactly the validated span with
/// the codecs the output container asks for, and overwrite the output.
pub fn ffmpeg_args(input: &str, start: Duration, end: Duration, output: &str) -> (r: Vec<
    String,
>)
    requires
        start.wf(),
        end.wf(),
        start.total_nanos() < end.total_nanos(),
    ensures
        r@.len() == 12,
        r@[0]@ == "-ss"@,
        r@[1]@ == timestamp_seq(start.secs as int),
        r@[2]@ == "-i"@,
        r@[3]@ == input@,
        r@[4]@ == "-t"@,
        r@[5]@ == timestamp_seq(
            (end.total_nanos() - start.total_nanos()) / (NANOS_PER_SEC as int),
        ),
        r@[6]@ == "-c:v"@,
        r@[7]@ == video_codec_of(output@),
        r@[8]@ == "-c:a"@,
        r@[9]@ == audio_codec_of(output@),
        r@[10]@ == "-y"@,
        r@[11]@ == output@,
{
    let dur = clip_duration(start, end);
    proof {
        assert((dur.secs * (NANOS_PER_SEC as int) + dur.nanos) / (NANOS_PER_SEC as int)
            == dur.secs) by (nonlinear_arith)
            requires
                0 <= dur.nanos < NANOS_PER_SEC,
                0 <= dur.secs,
        ;
    }
    let ts_start = format_timestamp(start);
    let ts_dur = format_timestamp(dur);
    let (vc, ac) = codecs_for_output(output);
    let mut r: Vec<String> = Vec::new();
    r.push("-ss".to_owned());
    r.push(ts_start);
    r.push("-i".to_owned());
    r.push(input.to_owned());
    r.push("-t".to_owned());
    r.push(ts_dur);
    r.push("-c:v".to_owned());
    r.push(vc.to_owned());
    r.push("-c:a".to_owned());
    r.push(ac.to_owned());
    r.push("-y".to_owned());
    r.push(output.to_owned());
    r
}

} // verus!
