//! Value layout: trimming, sign policy, the SI suffix, the integer/tail split,
//! grouping, UTF-16 padding, alignment and the locale's numerals, in the order
//! d3's `format` closure applies them.
use vstd::prelude::*;
use vstd::string::*;

use crate::limits::FormatError;
use crate::limits::FormatLimits;
use crate::text::{char_utf8_bytes, chars_of, encode_utf16, string_of, utf8_bytes, utf8_len};
use crate::types::{is_ascii_digit, Align, FormatType, Sign};

verus! {

broadcast use vstd::string::group_string_axioms;

// ---------------------------------------------------------------------------
// Bounded output
// ---------------------------------------------------------------------------

/// One piece of output: a text, or a run of one character.
pub enum Piece {
    Text(Seq<char>),
    Fill(char, nat),
}

pub open spec fn piece_chars(p: Piece) -> Seq<char> {
    match p {
        Piece::Text(s) => s,
        Piece::Fill(c, n) => Seq::new(n, |i: int| c),
    }
}

pub open spec fn piece_bytes(p: Piece) -> int {
    match p {
        Piece::Text(s) => utf8_len(s) as int,
        Piece::Fill(c, n) => (utf8_bytes(c) * n) as int,
    }
}

/// Appending one piece to `acc` under a byte limit: a run of nothing is skipped,
/// a size that does not fit in `usize` is an allocation failure, and a total over
/// `max` is refused with the total it would have reached.
pub open spec fn sink_step(acc: Seq<char>, p: Piece, max: usize) -> Result<Seq<char>, FormatError> {
    if p matches Piece::Fill(_, n) && n == 0 {
        Ok(acc)
    } else if piece_bytes(p) > usize::MAX {
        Err(FormatError::AllocationFailed)
    } else {
        let total = utf8_len(acc) + piece_bytes(p);
        if total > usize::MAX {
            Err(FormatError::AllocationFailed)
        } else if total > max {
            Err(FormatError::OutputLimit { requested: total as usize, maximum: max })
        } else {
            Ok(acc + piece_chars(p))
        }
    }
}

/// The pieces appended in order, stopping at the first refusal.
pub open spec fn run_pieces(acc: Seq<char>, pieces: Seq<Piece>, max: usize) -> Result<
    Seq<char>,
    FormatError,
>
    decreases pieces.len(),
{
    if pieces.len() == 0 {
        Ok(acc)
    } else {
        match sink_step(acc, pieces[0], max) {
            Ok(next) => run_pieces(next, pieces.skip(1), max),
            Err(e) => Err(e),
        }
    }
}

/// Everything a run of pieces writes, in order.
pub open spec fn pieces_chars(pieces: Seq<Piece>) -> Seq<char>
    decreases pieces.len(),
{
    if pieces.len() == 0 {
        Seq::empty()
    } else {
        piece_chars(pieces[0]) + pieces_chars(pieces.skip(1))
    }
}

/// A run of pieces that completes has written exactly their characters.
pub proof fn lemma_run_pieces_ok(acc: Seq<char>, pieces: Seq<Piece>, max: usize)
    ensures
        run_pieces(acc, pieces, max) matches Ok(out) ==> out == acc + pieces_chars(pieces),
    decreases pieces.len(),
{
    if pieces.len() == 0 {
        assert(acc + Seq::<char>::empty() =~= acc);
    } else {
        match sink_step(acc, pieces[0], max) {
            Ok(next) => {
                lemma_run_pieces_ok(next, pieces.skip(1), max);
                if pieces[0] matches Piece::Fill(_, n) && n == 0 {
                    assert(piece_chars(pieces[0]) =~= Seq::<char>::empty());
                    assert(next == acc);
                }
                assert(acc + piece_chars(pieces[0]) + pieces_chars(pieces.skip(1)) =~= acc + (
                piece_chars(pieces[0]) + pieces_chars(pieces.skip(1))));
            },
            Err(e) => {},
        }
    }
}

/// Output that the byte limit admits stays within it.
pub proof fn lemma_run_pieces_within(acc: Seq<char>, pieces: Seq<Piece>, max: usize)
    requires
        utf8_len(acc) <= max,
    ensures
        run_pieces(acc, pieces, max) matches Ok(out) ==> utf8_len(out) <= max,
    decreases pieces.len(),
{
    if pieces.len() > 0 {
        match sink_step(acc, pieces[0], max) {
            Ok(next) => {
                if !(pieces[0] matches Piece::Fill(_, n) && n == 0) {
                    crate::text::lemma_utf8_len_add(acc, piece_chars(pieces[0]));
                    match pieces[0] {
                        Piece::Text(t) => {},
                        Piece::Fill(c, n) => {
                            lemma_utf8_len_fill(c, n);
                        },
                    }
                }
                lemma_run_pieces_within(next, pieces.skip(1), max);
            },
            Err(e) => {},
        }
    }
}

proof fn lemma_utf8_len_fill(c: char, n: nat)
    ensures
        utf8_len(Seq::new(n, |i: int| c)) == utf8_bytes(c) * n,
    decreases n,
{
    if n > 0 {
        lemma_utf8_len_fill(c, (n - 1) as nat);
        let s = Seq::new(n, |i: int| c);
        assert(s.drop_last() =~= Seq::new((n - 1) as nat, |i: int| c));
        assert(s.last() == c);
        assert(utf8_len(s) == utf8_len(s.drop_last()) + utf8_bytes(c));
        assert(utf8_bytes(c) * (n - 1) + utf8_bytes(c) == utf8_bytes(c) * n) by (nonlinear_arith);
    } else {
        assert(Seq::new(n, |i: int| c).len() == 0);
    }
}

/// An executable piece of output.
pub enum Part {
    Text(Vec<char>),
    Fill(char, usize),
}

pub open spec fn part_view(p: Part) -> Piece {
    match p {
        Part::Text(v) => Piece::Text(v@),
        Part::Fill(c, n) => Piece::Fill(c, n as nat),
    }
}

pub open spec fn parts_view(ps: Seq<Part>) -> Seq<Piece> {
    Seq::new(ps.len(), |i: int| part_view(ps[i]))
}

proof fn lemma_utf8_len_push(s: Seq<char>, c: char)
    ensures
        utf8_len(s.push(c)) == utf8_len(s) + utf8_bytes(c),
{
    assert(s.push(c).drop_last() =~= s);
}

/// The UTF-8 length of `v`, exactly.
pub fn utf8_length(v: &Vec<char>) -> (n: u128)
    ensures
        n == utf8_len(v@),
        n <= 4 * v@.len(),
{
    let mut n: u128 = 0;
    let mut i: usize = 0;
    while i < v.len()
        invariant
            i <= v@.len(),
            n == utf8_len(v@.take(i as int)),
            n <= 4 * i,
        decreases v@.len() - i,
    {
        proof {
            assert(v@.take(i + 1) =~= v@.take(i as int).push(v@[i as int]));
            lemma_utf8_len_push(v@.take(i as int), v@[i as int]);
        }
        n = n + (char_utf8_bytes(v[i]) as u128);
        i = i + 1;
    }
    assert(v@.take(i as int) =~= v@);
    n
}

/// Appends `parts` to `out` under the byte limit `max`; `bytes` is what `out`
/// already holds.
fn sink_part(out: &mut Vec<char>, bytes: &mut usize, p: &Part, max: usize) -> (r: Result<(), FormatError>)
    requires
        *old(bytes) == utf8_len(old(out)@),
    ensures
        match r {
            Ok(()) => sink_step(old(out)@, part_view(*p), max) == Ok::<Seq<char>, FormatError>(
                final(out)@,
            ) && *final(bytes) == utf8_len(final(out)@),
            Err(e) => sink_step(old(out)@, part_view(*p), max) == Err::<Seq<char>, FormatError>(e),
        },
{
    match p {
        Part::Text(t) => {
            let tl = t.len();
            let len = utf8_length(t);
            assert(len <= 4 * 0xFFFF_FFFF_FFFF_FFFFu128);
            let total: u128 = (*bytes as u128) + len;
            if total > (usize::MAX as u128) {
                return Err(FormatError::AllocationFailed);
            }
            if total > (max as u128) {
                return Err(FormatError::OutputLimit { requested: total as usize, maximum: max });
            }
            let ghost start = out@;
            let mut i: usize = 0;
            while i < t.len()
                invariant
                    i <= t@.len(),
                    out@ == start + t@.take(i as int),
                decreases t@.len() - i,
            {
                out.push(t[i]);
                assert(t@.take(i + 1) =~= t@.take(i as int).push(t@[i as int]));
                i = i + 1;
            }
            assert(t@.take(i as int) =~= t@);
            proof {
                crate::text::lemma_utf8_len_add(start, t@);
            }
            *bytes = total as usize;
            Ok(())
        },
        Part::Fill(c, count) => {
            let c = *c;
            let count = *count;
            if count == 0 {
                assert(out@ == old(out)@);
                return Ok(());
            }
            let per = char_utf8_bytes(c) as u128;
            assert(per * count <= 4 * 0xFFFF_FFFF_FFFF_FFFF) by (nonlinear_arith)
                requires
                    per <= 4,
                    count <= 0xFFFF_FFFF_FFFF_FFFF,
            ;
            let need: u128 = per * (count as u128);
            if need > (usize::MAX as u128) {
                return Err(FormatError::AllocationFailed);
            }
            let total: u128 = (*bytes as u128) + need;
            if total > (usize::MAX as u128) {
                return Err(FormatError::AllocationFailed);
            }
            if total > (max as u128) {
                return Err(FormatError::OutputLimit { requested: total as usize, maximum: max });
            }
            let ghost start = out@;
            let mut i: usize = 0;
            while i < count
                invariant
                    i <= count,
                    out@ == start + Seq::new(i as nat, |k: int| c),
                    per == utf8_bytes(c),
                    utf8_len(out@) == utf8_len(start) + per * i,
                decreases count - i,
            {
                let ghost before = out@;
                proof {
                    lemma_utf8_len_push(before, c);
                    assert(start + Seq::new((i + 1) as nat, |k: int| c) =~= (start + Seq::new(
                        i as nat,
                        |k: int| c,
                    )).push(c));
                    assert(per * i + per == per * (i + 1)) by (nonlinear_arith);
                }
                out.push(c);
                assert(out@ == before.push(c));
                assert(utf8_len(out@) == utf8_len(start) + per * i + per);
                i = i + 1;
            }
            *bytes = total as usize;
            Ok(())
        },
    }
}

/// Runs `parts` through a fresh bounded buffer.
pub fn run_parts(parts: &Vec<Part>, max: usize) -> (r: Result<Vec<char>, FormatError>)
    ensures
        match r {
            Ok(v) => run_pieces(Seq::<char>::empty(), parts_view(parts@), max) == Ok::<
                Seq<char>,
                FormatError,
            >(v@),
            Err(e) => run_pieces(Seq::<char>::empty(), parts_view(parts@), max) == Err::<
                Seq<char>,
                FormatError,
            >(e),
        },
{
    let mut out: Vec<char> = Vec::new();
    proof {
        reveal_with_fuel(utf8_len, 1);
    }
    run_parts_from(&mut out, parts, max)?;
    Ok(out)
}

/// Runs `parts` through the bounded buffer `out`, after what it already holds.
pub fn run_parts_from(out: &mut Vec<char>, parts: &Vec<Part>, max: usize) -> (r: Result<
    (),
    FormatError,
>)
    requires
        utf8_len(old(out)@) <= usize::MAX,
    ensures
        match r {
            Ok(()) => run_pieces(old(out)@, parts_view(parts@), max) == Ok::<Seq<char>, FormatError>(
                final(out)@,
            ),
            Err(e) => run_pieces(old(out)@, parts_view(parts@), max) == Err::<
                Seq<char>,
                FormatError,
            >(e),
        },
{
    let held = utf8_length(out);
    let mut bytes: usize = held as usize;
    let ghost whole = parts_view(parts@);
    let ghost start = out@;
    let mut i: usize = 0;
    assert(whole.skip(0) =~= whole);
    while i < parts.len()
        invariant
            i <= parts@.len(),
            start == old(out)@,
            whole == parts_view(parts@),
            bytes == utf8_len(out@),
            run_pieces(start, whole, max) == run_pieces(out@, whole.skip(i as int), max),
        decreases parts@.len() - i,
    {
        let ghost before = out@;
        assert(whole.skip(i as int)[0] == part_view(parts@[i as int]));
        assert(whole.skip(i as int).skip(1) =~= whole.skip(i + 1));
        match sink_part(out, &mut bytes, &parts[i], max) {
            Ok(()) => {},
            Err(e) => {
                return Err(e);
            },
        }
        i = i + 1;
    }
    assert(whole.skip(i as int) =~= Seq::<Piece>::empty());
    Ok(())
}

// ---------------------------------------------------------------------------
// The individual steps
// ---------------------------------------------------------------------------

/// The SI prefix at position `i` of the table `y z a f p n µ m _ k M G T P E Z Y`.
pub open spec fn si_prefix_at(i: int) -> Seq<char> {
    if i == 0 {
        "y"@
    } else if i == 1 {
        "z"@
    } else if i == 2 {
        "a"@
    } else if i == 3 {
        "f"@
    } else if i == 4 {
        "p"@
    } else if i == 5 {
        "n"@
    } else if i == 6 {
        "\u{b5}"@
    } else if i == 7 {
        "m"@
    } else if i == 8 {
        ""@
    } else if i == 9 {
        "k"@
    } else if i == 10 {
        "M"@
    } else if i == 11 {
        "G"@
    } else if i == 12 {
        "T"@
    } else if i == 13 {
        "P"@
    } else if i == 14 {
        "E"@
    } else if i == 15 {
        "Z"@
    } else {
        "Y"@
    }
}

/// The SI prefix for an exponent: floor division by three picks the entry, and an
/// exponent outside the table has none.
pub open spec fn spec_si_prefix_of(e: int) -> Seq<char> {
    let i = e / 3 + 8;
    if 0 <= i < 17 {
        si_prefix_at(i)
    } else {
        ""@
    }
}

pub fn si_prefix_entry(i: usize) -> (s: &'static str)
    requires
        i < 17,
    ensures
        s@ == si_prefix_at(i as int),
{
    if i == 0 {
        "y"
    } else if i == 1 {
        "z"
    } else if i == 2 {
        "a"
    } else if i == 3 {
        "f"
    } else if i == 4 {
        "p"
    } else if i == 5 {
        "n"
    } else if i == 6 {
        "\u{b5}"
    } else if i == 7 {
        "m"
    } else if i == 8 {
        ""
    } else if i == 9 {
        "k"
    } else if i == 10 {
        "M"
    } else if i == 11 {
        "G"
    } else if i == 12 {
        "T"
    } else if i == 13 {
        "P"
    } else if i == 14 {
        "E"
    } else if i == 15 {
        "Z"
    } else {
        "Y"
    }
}

/// The SI prefix for an SI exponent, or `""` outside the table.
pub fn si_prefix_of(exponent: i32) -> (s: &'static str)
    ensures
        s@ == spec_si_prefix_of(exponent as int),
{
    if -24 <= exponent && exponent <= 26 {
        let shifted = (exponent + 24) as u32;
        let i = (shifted / 3) as usize;
        assert(i as int == exponent as int / 3 + 8) by (nonlinear_arith)
            requires
                -24 <= exponent <= 26,
                shifted == exponent + 24,
                i == shifted / 3,
        ;
        si_prefix_entry(i)
    } else {
        assert(!(0 <= exponent as int / 3 + 8 < 17)) by (nonlinear_arith)
            requires
                !(-24 <= exponent <= 26),
        ;
        ""
    }
}

/// The scan of d3's `formatTrim` from position `i`: `start` is where a run of
/// insignificant characters opened, `ended` whether a significant digit closed
/// one, and `last` the last `.` or `0` seen.
pub open spec fn trim_scan(s: Seq<char>, i: int, start: Option<int>, ended: bool, last: int) -> (
    Option<int>,
    int,
)
    decreases s.len() - i,
{
    if i < 1 || i >= s.len() {
        (start, last)
    } else if s[i] == '.' {
        trim_scan(s, i + 1, Some(i), false, i)
    } else if s[i] == '0' {
        if ended {
            trim_scan(s, i + 1, Some(i), false, i)
        } else {
            trim_scan(s, i + 1, start, ended, i)
        }
    } else if '1' <= s[i] <= '9' {
        if start is Some {
            trim_scan(s, i + 1, None, true, last)
        } else {
            trim_scan(s, i + 1, start, ended, last)
        }
    } else {
        (start, last)
    }
}

/// d3's `formatTrim`: removes the run of insignificant zeros (and the point) that
/// the scan found, and returns the text unchanged when it found none.
pub open spec fn spec_trim(s: Seq<char>) -> Seq<char> {
    match trim_scan(s, 1, None, false, 0) {
        (Some(st), last) => s.take(st) + s.skip(last + 1),
        (None, _) => s,
    }
}

/// The end of the run of ASCII digits that starts at `i`.
pub open spec fn digit_run_end(s: Seq<char>, i: int) -> int
    decreases s.len() - i,
{
    if i < 0 || i >= s.len() || !is_ascii_digit(s[i]) {
        i
    } else {
        digit_run_end(s, i + 1)
    }
}

/// The last non-zero digit strictly between `d` and `j`, or `d` when there is none.
pub open spec fn last_significant(s: Seq<char>, d: int, j: int) -> int
    decreases j - d,
{
    if j <= d + 1 {
        d
    } else if '1' <= s[j - 1] <= '9' {
        j - 1
    } else {
        last_significant(s, d, j - 1)
    }
}

proof fn lemma_digit_run_end(s: Seq<char>, i: int)
    requires
        0 <= i <= s.len(),
    ensures
        i <= digit_run_end(s, i) <= s.len(),
        forall|j: int| i <= j < digit_run_end(s, i) ==> is_ascii_digit(#[trigger] s[j]),
        digit_run_end(s, i) < s.len() ==> !is_ascii_digit(s[digit_run_end(s, i)]),
    decreases s.len() - i,
{
    if i < s.len() && is_ascii_digit(s[i]) {
        lemma_digit_run_end(s, i + 1);
    }
}

proof fn lemma_last_significant(s: Seq<char>, d: int, j: int)
    ensures
        d <= last_significant(s, d, j),
        j > d ==> last_significant(s, d, j) < j,
    decreases j - d,
{
    if j > d + 1 && !('1' <= s[j - 1] <= '9') {
        lemma_last_significant(s, d, j - 1);
    }
}

/// The scan over the integer digits reaches the point with nothing opened.
proof fn lemma_trim_scan_to_point(s: Seq<char>, d: int, i: int, last: int)
    requires
        1 <= i <= d < s.len(),
        s[d] == '.',
        forall|j: int| 1 <= j < d ==> is_ascii_digit(#[trigger] s[j]),
    ensures
        trim_scan(s, i, None, false, last) == trim_scan(s, d + 1, Some(d), false, d),
    decreases d - i,
{
    if i < d {
        assert(is_ascii_digit(s[i]));
        if s[i] == '0' {
            lemma_trim_scan_to_point(s, d, i + 1, i);
        } else {
            lemma_trim_scan_to_point(s, d, i + 1, last);
        }
    }
}

/// The scan state over the fraction digits before `j`.
spec fn fraction_state(s: Seq<char>, d: int, j: int, start: Option<int>, ended: bool, last: int) -> bool {
    let k = last_significant(s, d, j);
    if k == d {
        start == Some(d) && !ended && last == j - 1
    } else if k == j - 1 {
        start is None && ended
    } else {
        start == Some(k + 1) && !ended && last == j - 1
    }
}

proof fn lemma_trim_scan_fraction(
    s: Seq<char>,
    d: int,
    f: int,
    j: int,
    start: Option<int>,
    ended: bool,
    last: int,
)
    requires
        1 <= d < j <= f <= s.len(),
        forall|i: int| d < i < f ==> is_ascii_digit(#[trigger] s[i]),
        f < s.len() ==> !is_ascii_digit(s[f]) && s[f] != '.',
        fraction_state(s, d, j, start, ended, last),
    ensures
        ({
            let k = last_significant(s, d, f);
            match trim_scan(s, j, start, ended, last) {
                (Some(st), l) => (k == d || k != f - 1) && st == (if k == d {
                    d
                } else {
                    k + 1
                }) && l == f - 1,
                (None, _) => k == f - 1 && k != d,
            }
        }),
    decreases f - j,
{
    lemma_last_significant(s, d, j);
    lemma_last_significant(s, d, j + 1);
    if j < f {
        let c = s[j];
        assert(is_ascii_digit(c));
        if c == '0' {
            assert(last_significant(s, d, j + 1) == last_significant(s, d, j));
            if ended {
                lemma_trim_scan_fraction(s, d, f, j + 1, Some(j), false, j);
            } else {
                lemma_trim_scan_fraction(s, d, f, j + 1, start, ended, j);
            }
        } else {
            assert('1' <= c <= '9');
            assert(last_significant(s, d, j + 1) == j);
            if start is Some {
                lemma_trim_scan_fraction(s, d, f, j + 1, None, true, last);
            } else {
                lemma_trim_scan_fraction(s, d, f, j + 1, start, ended, last);
            }
        }
    }
}

/// `formatTrim` removes exactly the zeros that end the fraction of a number, and
/// the point as well when no fraction digit is left: the text after it (an
/// exponent, a suffix) is kept, and so is every digit before the point.
///
/// `d` is the point; the characters between the first and the point are digits,
/// and the fraction's digit run does not end at a second point.
pub proof fn lemma_trim_removes_exactly_the_insignificant_zeros(s: Seq<char>, d: int)
    requires
        1 <= d < s.len(),
        s[d] == '.',
        forall|i: int| 1 <= i < d ==> is_ascii_digit(#[trigger] s[i]),
        digit_run_end(s, d + 1) < s.len() ==> s[digit_run_end(s, d + 1)] != '.',
    ensures
        ({
            let f = digit_run_end(s, d + 1);
            let k = last_significant(s, d, f);
            spec_trim(s) == s.take(
                if k == d {
                    d
                } else {
                    k + 1
                },
            ) + s.skip(f)
        }),
{
    let f = digit_run_end(s, d + 1);
    lemma_digit_run_end(s, d + 1);
    lemma_trim_scan_to_point(s, d, 1, 0);
    assert(trim_scan(s, d, None, false, 0) == trim_scan(s, d + 1, Some(d), false, d)) by {
        lemma_trim_scan_to_point(s, d, d, 0);
    }
    assert(last_significant(s, d, d + 1) == d);
    assert forall|i: int| d < i < f implies is_ascii_digit(#[trigger] s[i]) by {}
    lemma_trim_scan_fraction(s, d, f, d + 1, Some(d), false, d);
    let k = last_significant(s, d, f);
    lemma_last_significant(s, d, f);
    if k == f - 1 && k != d {
        assert(s.take(k + 1) + s.skip(f) =~= s);
    }
}

/// Removes insignificant trailing zeros, as d3's `formatTrim`.
pub fn trim_chars(s: &Vec<char>) -> (r: Vec<char>)
    ensures
        r@ == spec_trim(s@),
{
    let n = s.len();
    let mut start: Option<usize> = None;
    let mut ended = false;
    let mut last: usize = 0;
    let mut i: usize = 1;
    let mut stop = false;
    while i < n && !stop
        invariant
            1 <= i,
            n == s@.len(),
            start matches Some(st) ==> 1 <= st < i && st <= last && last < n,
            last < i || (i == 1 && last == 0),
            stop ==> trim_scan(s@, 1, None, false, 0) == (match start {
                Some(st) => Some(st as int),
                None => None,
            }, last as int),
            !stop ==> trim_scan(s@, 1, None, false, 0) == trim_scan(s@, i as int, match start {
                Some(st) => Some(st as int),
                None => None,
            }, ended, last as int),
        decreases n - i, if stop { 0int } else { 1int },
    {
        let c = s[i];
        if c == '.' {
            start = Some(i);
            ended = false;
            last = i;
            i = i + 1;
        } else if c == '0' {
            if ended {
                start = Some(i);
                ended = false;
            }
            last = i;
            i = i + 1;
        } else if '1' <= c && c <= '9' {
            if start.is_some() {
                start = None;
                ended = true;
            }
            i = i + 1;
        } else {
            stop = true;
        }
    }
    if !stop {
        assert(trim_scan(s@, i as int, match start {
            Some(st) => Some(st as int),
            None => None,
        }, ended, last as int) == (match start {
            Some(st) => Some(st as int),
            None => None,
        }, last as int));
    }
    match start {
        None => {
            let mut r: Vec<char> = Vec::new();
            let mut k: usize = 0;
            while k < n
                invariant
                    k <= n,
                    n == s@.len(),
                    r@ == s@.take(k as int),
                decreases n - k,
            {
                r.push(s[k]);
                assert(s@.take(k + 1) =~= s@.take(k as int).push(s@[k as int]));
                k = k + 1;
            }
            assert(s@.take(n as int) =~= s@);
            r
        },
        Some(st) => {
            let mut r: Vec<char> = Vec::new();
            let mut k: usize = 0;
            while k < st
                invariant
                    k <= st,
                    st < n,
                    n == s@.len(),
                    r@ == s@.take(k as int),
                decreases st - k,
            {
                r.push(s[k]);
                assert(s@.take(k + 1) =~= s@.take(k as int).push(s@[k as int]));
                k = k + 1;
            }
            let ghost head = r@;
            let mut k: usize = last + 1;
            while k < n
                invariant
                    last + 1 <= k <= n,
                    n == s@.len(),
                    r@ == head + s@.subrange(last + 1, k as int),
                decreases n - k,
            {
                r.push(s[k]);
                assert(s@.subrange(last + 1, k + 1) =~= s@.subrange(last + 1, k as int).push(
                    s@[k as int],
                ));
                k = k + 1;
            }
            assert(s@.subrange(last + 1, n as int) =~= s@.skip(last + 1));
            r
        },
    }
}

/// The index of the first character of `s` that is not an ASCII digit.
pub open spec fn first_non_digit(s: Seq<char>) -> Option<int> {
    if exists|i: int| 0 <= i < s.len() && !is_ascii_digit(s[i]) {
        Some(
            choose|i: int|
                0 <= i < s.len() && !is_ascii_digit(s[i]) && forall|j: int|
                    0 <= j < i ==> is_ascii_digit(s[j]),
        )
    } else {
        None
    }
}

/// The `maybeSuffix` split: the digits, the locale's decimal point if the break
/// was a `.`, and the rest.
pub open spec fn spec_split(body: Seq<char>, decimal: Seq<char>) -> (Seq<char>, Seq<char>, Seq<char>) {
    match first_non_digit(body) {
        None => (body, Seq::<char>::empty(), Seq::<char>::empty()),
        Some(at) => if body[at] == '.' {
            (body.take(at), decimal, body.skip(at + 1))
        } else {
            (body.take(at), Seq::<char>::empty(), body.skip(at))
        },
    }
}

fn first_non_digit_at(s: &Vec<char>) -> (r: Option<usize>)
    ensures
        match r {
            Some(i) => first_non_digit(s@) == Some(i as int) && i < s@.len(),
            None => first_non_digit(s@) is None,
        },
{
    let mut i: usize = 0;
    while i < s.len()
        invariant
            i <= s@.len(),
            forall|j: int| 0 <= j < i ==> is_ascii_digit(s@[j]),
        decreases s@.len() - i,
    {
        if !('0' <= s[i] && s[i] <= '9') {
            proof {
                let k = choose|k: int|
                    0 <= k < s@.len() && !is_ascii_digit(s@[k]) && forall|j: int|
                        0 <= j < k ==> is_ascii_digit(s@[j]);
                assert(0 <= i < s@.len() && !is_ascii_digit(s@[i as int]));
                if k < i {
                } else if k > i {
                }
            }
            return Some(i);
        }
        i = i + 1;
    }
    None
}

fn copy_range(s: &Vec<char>, from: usize, to: usize) -> (r: Vec<char>)
    requires
        from <= to <= s@.len(),
    ensures
        r@ == s@.subrange(from as int, to as int),
{
    let mut r: Vec<char> = Vec::new();
    let mut k: usize = from;
    while k < to
        invariant
            from <= k <= to,
            to <= s@.len(),
            r@ == s@.subrange(from as int, k as int),
        decreases to - k,
    {
        r.push(s[k]);
        assert(s@.subrange(from as int, k + 1) =~= s@.subrange(from as int, k as int).push(
            s@[k as int],
        ));
        k = k + 1;
    }
    r
}

/// Splits `body` at its first non-digit.
pub fn split_at_first_non_digit(body: &Vec<char>, decimal: &Vec<char>) -> (r: (
    Vec<char>,
    Vec<char>,
    Vec<char>,
))
    ensures
        (r.0@, r.1@, r.2@) == spec_split(body@, decimal@),
{
    let n = body.len();
    match first_non_digit_at(body) {
        None => {
            let all = copy_range(body, 0, n);
            assert(body@.subrange(0, n as int) =~= body@);
            (all, Vec::new(), Vec::new())
        },
        Some(at) => {
            let head = copy_range(body, 0, at);
            assert(body@.subrange(0, at as int) =~= body@.take(at as int));
            if body[at] == '.' {
                let rest = copy_range(body, at + 1, n);
                assert(body@.subrange(at + 1, n as int) =~= body@.skip(at + 1));
                let d = copy_range(decimal, 0, decimal.len());
                assert(decimal@.subrange(0, decimal@.len() as int) =~= decimal@);
                (head, d, rest)
            } else {
                let rest = copy_range(body, at, n);
                assert(body@.subrange(at as int, n as int) =~= body@.skip(at as int));
                (head, Vec::new(), rest)
            }
        },
    }
}

// ---------------------------------------------------------------------------
// The layout
// ---------------------------------------------------------------------------

/// The resolution a formatter performs before it lays any value out.
#[derive(Debug, PartialEq, Eq)]
pub struct Layout {
    pub fill: char,
    pub align: Align,
    pub sign: Sign,
    pub zero: bool,
    /// The padded width, in UTF-16 code units; zero means no padding.
    pub width: u32,
    pub comma: bool,
    pub precision: u32,
    pub trim: bool,
    /// The type after `n` becomes `,g` and an unknown letter becomes `.12~g`.
    pub resolved_type: FormatType,
    /// Whether the result can carry a fractional or exponential tail that must not
    /// be grouped.
    pub maybe_suffix: bool,
    pub prefix: String,
    pub suffix: String,
    /// The scale of a fixed-SI-prefix formatter, as the bits of a binary64 value.
    pub prefix_scale: Option<u64>,
}

impl Clone for Layout {
    /// The same resolution, field for field.
    fn clone(&self) -> (c: Layout)
        ensures
            c == *self,
    {
        Layout {
            fill: self.fill,
            align: self.align,
            sign: self.sign,
            zero: self.zero,
            width: self.width,
            comma: self.comma,
            precision: self.precision,
            trim: self.trim,
            resolved_type: self.resolved_type,
            maybe_suffix: self.maybe_suffix,
            prefix: self.prefix.clone(),
            suffix: self.suffix.clone(),
            prefix_scale: self.prefix_scale,
        }
    }
}

/// What a value contributes to the output, before grouping and padding.
pub struct Parts {
    pub sign_prefix: Seq<char>,
    pub value: Seq<char>,
    pub tail_decimal: Seq<char>,
    pub tail: Seq<char>,
    pub si_suffix: Seq<char>,
    pub close: Seq<char>,
}

/// Text lands where a fractional tail would: never grouped and never signed.
pub open spec fn text_parts(text: Seq<char>) -> Parts {
    Parts {
        sign_prefix: Seq::<char>::empty(),
        value: Seq::<char>::empty(),
        tail_decimal: Seq::<char>::empty(),
        tail: text,
        si_suffix: Seq::<char>::empty(),
        close: Seq::<char>::empty(),
    }
}

/// The parts of a number whose conversion (or the locale's NaN text) trimmed to
/// `body`. A negative value whose text reads as zero loses its sign unless the
/// sign is `+`; the sign goes before the prefix and a closing parenthesis after
/// the suffix.
pub open spec fn number_parts(
    l: Layout,
    decimal: Seq<char>,
    minus: Seq<char>,
    negative: bool,
    body: Seq<char>,
    body_is_zero: bool,
    si_exponent: Option<i32>,
) -> Parts {
    let neg = negative && !(l.sign != Sign::Plus && body_is_zero);
    let sign_prefix = if neg {
        if l.sign == Sign::Parens {
            "("@
        } else {
            minus
        }
    } else {
        match l.sign {
            Sign::Plus => "+"@,
            Sign::Space => " "@,
            _ => Seq::<char>::empty(),
        }
    };
    let si_suffix = if l.resolved_type == FormatType::SiPrefix && si_exponent is Some {
        spec_si_prefix_of(si_exponent.unwrap() as int)
    } else {
        Seq::<char>::empty()
    };
    let close = if neg && l.sign == Sign::Parens {
        ")"@
    } else {
        Seq::<char>::empty()
    };
    let (value, tail_decimal, tail) = if l.maybe_suffix {
        spec_split(body, decimal)
    } else {
        (body, Seq::<char>::empty(), Seq::<char>::empty())
    };
    Parts { sign_prefix, value, tail_decimal, tail, si_suffix, close }
}

pub open spec fn suffix_len(l: Layout, p: Parts) -> int {
    (crate::text::utf16_len(p.tail_decimal) + crate::text::utf16_len(p.tail) + crate::text::utf16_len(p.si_suffix) + crate::text::utf16_len(l.suffix@)
        + crate::text::utf16_len(p.close)) as int
}

/// `comma && !zero`: the digits grouped on their own.
pub open spec fn group_value(
    l: Layout,
    grouping: Option<(Seq<u32>, Seq<char>)>,
    value: Seq<char>,
    max: usize,
) -> Result<Seq<char>, FormatError> {
    if l.comma && !l.zero && grouping is Some {
        let (sizes, th) = grouping.unwrap();
        let n16 = crate::text::utf16_len(value);
        if n16 > usize::MAX {
            Err(FormatError::AllocationFailed)
        } else if n16 > max {
            Err(FormatError::OutputLimit { requested: n16 as usize, maximum: max })
        } else {
            crate::grouping::spec_group(encode_utf16(value), sizes, th, None, max)
        }
    } else {
        Ok(value)
    }
}

/// `comma && zero`: the padding grouped along with the digits, with a budget of
/// the width less the suffix when there is any padding; the padding is spent.
pub open spec fn zero_group(
    l: Layout,
    grouping: Option<(Seq<u32>, Seq<char>)>,
    value: Seq<char>,
    padding: nat,
    suffix: int,
    max: usize,
) -> Result<Seq<char>, FormatError> {
    let len = padding * crate::text::utf16_units(l.fill) + crate::text::utf16_len(value);
    if len > usize::MAX {
        Err(FormatError::AllocationFailed)
    } else if len > max {
        Err(FormatError::OutputLimit { requested: len as usize, maximum: max })
    } else {
        let units = encode_utf16(Seq::new(padding, |i: int| l.fill) + value);
        let budget: Option<int> = if padding > 0 {
            Some(l.width - suffix)
        } else {
            None
        };
        match grouping {
            Some((sizes, th)) => crate::grouping::spec_group(units, sizes, th, budget, max),
            None => Ok(crate::text::decode_utf16(units)),
        }
    }
}

/// The pieces in the order the alignment puts them.
pub open spec fn align_pieces(l: Layout, p: Parts, value: Seq<char>, padding: nat) -> Seq<Piece> {
    let pre = seq![Piece::Text(p.sign_prefix), Piece::Text(l.prefix@)];
    let suf = seq![
        Piece::Text(p.tail_decimal),
        Piece::Text(p.tail),
        Piece::Text(p.si_suffix),
        Piece::Text(l.suffix@),
        Piece::Text(p.close),
    ];
    match l.align {
        Align::Left => pre + seq![Piece::Text(value)] + suf + seq![Piece::Fill(l.fill, padding)],
        Align::AfterSign => pre + seq![Piece::Fill(l.fill, padding), Piece::Text(value)] + suf,
        Align::Center => seq![Piece::Fill(l.fill, padding / 2)] + pre + seq![Piece::Text(value)]
            + suf + seq![Piece::Fill(l.fill, (padding - padding / 2) as nat)],
        Align::Right => seq![Piece::Fill(l.fill, padding)] + pre + seq![Piece::Text(value)] + suf,
    }
}

/// The body of d3's `format`, up to but not including numeral substitution.
pub open spec fn spec_assemble(
    l: Layout,
    grouping: Option<(Seq<u32>, Seq<char>)>,
    max: usize,
    p: Parts,
) -> Result<Seq<char>, FormatError> {
    match group_value(l, grouping, p.value, max) {
        Err(e) => Err(e),
        Ok(value) => {
            let length = crate::text::utf16_len(p.sign_prefix) + crate::text::utf16_len(l.prefix@) + crate::text::utf16_len(value)
                + suffix_len(l, p);
            if length > usize::MAX {
                Err(FormatError::AllocationFailed)
            } else {
                let padding: nat = if l.width > length {
                    (l.width - length) as nat
                } else {
                    0
                };
                if l.comma && l.zero {
                    match zero_group(l, grouping, value, padding, suffix_len(l, p), max) {
                        Err(e) => Err(e),
                        Ok(v) => run_pieces(Seq::<char>::empty(), align_pieces(l, p, v, 0), max),
                    }
                } else {
                    run_pieces(Seq::<char>::empty(), align_pieces(l, p, value, padding), max)
                }
            }
        },
    }
}

/// `/[0-9]/g` replaced by the locale's numerals, over the whole assembled text.
pub open spec fn numeral_pieces(a: Seq<char>, n: Seq<Seq<char>>) -> Seq<Piece> {
    Seq::new(
        a.len(),
        |i: int|
            if is_ascii_digit(a[i]) {
                Piece::Text(n[crate::text::digit_value(a[i]) as int])
            } else {
                Piece::Text(seq![a[i]])
            },
    )
}

/// The whole layout: assembly, then numeral substitution when the locale has
/// numerals of its own.
pub open spec fn spec_lay_out(
    l: Layout,
    grouping: Option<(Seq<u32>, Seq<char>)>,
    numerals: Option<Seq<Seq<char>>>,
    max: usize,
    p: Parts,
) -> Result<Seq<char>, FormatError> {
    match numerals {
        None => spec_assemble(l, grouping, max, p),
        Some(n) => match spec_assemble(l, grouping, max, p) {
            Err(e) => Err(e),
            Ok(a) => run_pieces(Seq::<char>::empty(), numeral_pieces(a, n), max),
        },
    }
}

/// Output that fits `max` bytes, or a refusal naming `max` and a size over it.
pub open spec fn within_budget(r: Result<Seq<char>, FormatError>, max: usize) -> bool {
    match r {
        Ok(out) => utf8_len(out) <= max,
        Err(FormatError::OutputLimit { requested, maximum }) => maximum == max && requested > max,
        Err(_) => true,
    }
}

/// A run of pieces from text within the budget stays within it, or is refused
/// for a size over it.
pub proof fn lemma_run_pieces_budget(acc: Seq<char>, pieces: Seq<Piece>, max: usize)
    requires
        utf8_len(acc) <= max,
    ensures
        within_budget(run_pieces(acc, pieces, max), max),
    decreases pieces.len(),
{
    lemma_run_pieces_within(acc, pieces, max);
    if pieces.len() > 0 {
        match sink_step(acc, pieces[0], max) {
            Ok(next) => {
                if !(pieces[0] matches Piece::Fill(_, n) && n == 0) {
                    crate::text::lemma_utf8_len_add(acc, piece_chars(pieces[0]));
                    match pieces[0] {
                        Piece::Text(t) => {},
                        Piece::Fill(c, n) => {
                            lemma_utf8_len_fill(c, n);
                        },
                    }
                }
                lemma_run_pieces_budget(next, pieces.skip(1), max);
            },
            Err(e) => {},
        }
    }
}

/// Laying a value out never yields more than `max` bytes: it yields text that
/// fits, or refuses with the budget and a size over it.
pub proof fn lemma_lay_out_within_budget(
    l: Layout,
    grouping: Option<(Seq<u32>, Seq<char>)>,
    numerals: Option<Seq<Seq<char>>>,
    max: usize,
    p: Parts,
)
    ensures
        within_budget(spec_lay_out(l, grouping, numerals, max, p), max),
{
    let empty = Seq::<char>::empty();
    assert(utf8_len(empty) == 0) by {
        reveal_with_fuel(utf8_len, 1);
    }
    match group_value(l, grouping, p.value, max) {
        Err(e) => {},
        Ok(value) => {
            let length = crate::text::utf16_len(p.sign_prefix) + crate::text::utf16_len(l.prefix@)
                + crate::text::utf16_len(value) + suffix_len(l, p);
            if length <= usize::MAX {
                let padding: nat = if l.width > length {
                    (l.width - length) as nat
                } else {
                    0
                };
                if l.comma && l.zero {
                    match zero_group(l, grouping, value, padding, suffix_len(l, p), max) {
                        Err(e) => {
                            let len = padding * crate::text::utf16_units(l.fill)
                                + crate::text::utf16_len(value);
                            if len <= max && grouping is Some {
                                let (sizes, th) = grouping.unwrap();
                                let units = encode_utf16(Seq::new(padding, |i: int| l.fill) + value);
                                let budget: Option<int> = if padding > 0 {
                                    Some(l.width - suffix_len(l, p))
                                } else {
                                    None
                                };
                                crate::grouping::lemma_group_within_budget(
                                    units,
                                    sizes,
                                    th,
                                    budget,
                                    max,
                                );
                            }
                        },
                        Ok(v) => {
                            lemma_run_pieces_budget(empty, align_pieces(l, p, v, 0), max);
                        },
                    }
                } else {
                    lemma_run_pieces_budget(empty, align_pieces(l, p, value, padding), max);
                }
            }
        },
    }
    match group_value(l, grouping, p.value, max) {
        Ok(value) => {},
        Err(e) => {
            if l.comma && !l.zero && grouping is Some {
                let (sizes, th) = grouping.unwrap();
                if crate::text::utf16_len(p.value) <= max {
                    crate::grouping::lemma_group_within_budget(
                        encode_utf16(p.value),
                        sizes,
                        th,
                        None,
                        max,
                    );
                }
            }
        },
    }
    match spec_assemble(l, grouping, max, p) {
        Ok(a) => {
            if numerals is Some {
                lemma_run_pieces_budget(empty, numeral_pieces(a, numerals.unwrap()), max);
            }
        },
        Err(e) => {},
    }
}

/// Whether `s` holds an ASCII digit.
pub open spec fn has_ascii_digit(s: Seq<char>) -> bool {
    exists|i: int| 0 <= i < s.len() && is_ascii_digit(#[trigger] s[i])
}

proof fn lemma_no_digit_concat(a: Seq<char>, b: Seq<char>)
    requires
        !has_ascii_digit(a),
        !has_ascii_digit(b),
    ensures
        !has_ascii_digit(a + b),
{
    assert forall|i: int| 0 <= i < (a + b).len() implies !is_ascii_digit(#[trigger] (a + b)[i]) by {
        if i < a.len() {
            assert((a + b)[i] == a[i]);
        } else {
            assert((a + b)[i] == b[i - a.len()]);
        }
    }
}

/// The substitution pass leaves no ASCII digit behind when no numeral holds one.
proof fn lemma_numeral_pieces_no_digit(a: Seq<char>, n: Seq<Seq<char>>)
    requires
        n.len() == 10,
        forall|k: int| 0 <= k < 10 ==> !has_ascii_digit(#[trigger] n[k]),
    ensures
        !has_ascii_digit(pieces_chars(numeral_pieces(a, n))),
    decreases a.len(),
{
    let ps = numeral_pieces(a, n);
    if a.len() == 0 {
        assert(pieces_chars(ps) =~= Seq::<char>::empty());
    } else {
        assert(ps.skip(1) =~= numeral_pieces(a.skip(1), n));
        lemma_numeral_pieces_no_digit(a.skip(1), n);
        let c = a[0];
        if is_ascii_digit(c) {
            assert(crate::text::digit_value(c) < 10);
            assert(!has_ascii_digit(n[crate::text::digit_value(c) as int]));
        } else {
            assert(piece_chars(ps[0]) =~= seq![c]);
            assert(!has_ascii_digit(seq![c]));
        }
        lemma_no_digit_concat(piece_chars(ps[0]), pieces_chars(ps.skip(1)));
    }
}

/// With numerals that hold no ASCII digit, a laid-out value holds none either:
/// the substitution reaches the fill, the affixes and the text alike.
pub proof fn lemma_lay_out_numerals_reach_every_digit(
    l: Layout,
    grouping: Option<(Seq<u32>, Seq<char>)>,
    n: Seq<Seq<char>>,
    max: usize,
    p: Parts,
)
    requires
        n.len() == 10,
        forall|k: int| 0 <= k < 10 ==> !has_ascii_digit(#[trigger] n[k]),
    ensures
        spec_lay_out(l, grouping, Some(n), max, p) matches Ok(out) ==> !has_ascii_digit(out),
{
    match spec_assemble(l, grouping, max, p) {
        Ok(a) => {
            lemma_run_pieces_ok(Seq::<char>::empty(), numeral_pieces(a, n), max);
            lemma_numeral_pieces_no_digit(a, n);
            assert(Seq::<char>::empty() + pieces_chars(numeral_pieces(a, n)) =~= pieces_chars(
                numeral_pieces(a, n),
            ));
        },
        Err(e) => {},
    }
}

/// The UTF-16 length of what a run of pieces writes, piece by piece.
spec fn units_sum(ps: Seq<Piece>) -> nat
    decreases ps.len(),
{
    if ps.len() == 0 {
        0
    } else {
        crate::text::utf16_len(piece_chars(ps[0])) + units_sum(ps.skip(1))
    }
}

proof fn lemma_units_sum(ps: Seq<Piece>)
    ensures
        crate::text::utf16_len(pieces_chars(ps)) == units_sum(ps),
    decreases ps.len(),
{
    if ps.len() == 0 {
        assert(pieces_chars(ps) =~= Seq::<char>::empty());
        assert(crate::text::utf16_len(Seq::<char>::empty()) == 0) by {
            reveal_with_fuel(crate::text::utf16_len, 1);
        }
    } else {
        lemma_units_sum(ps.skip(1));
        crate::text::lemma_utf16_len_add(piece_chars(ps[0]), pieces_chars(ps.skip(1)));
    }
}

proof fn lemma_units_sum_concat(a: Seq<Piece>, b: Seq<Piece>)
    ensures
        units_sum(a + b) == units_sum(a) + units_sum(b),
    decreases a.len(),
{
    if a.len() == 0 {
        assert(a + b =~= b);
    } else {
        assert((a + b).skip(1) =~= a.skip(1) + b);
        assert((a + b)[0] == a[0]);
        lemma_units_sum_concat(a.skip(1), b);
    }
}

proof fn lemma_utf16_len_fill(c: char, n: nat)
    ensures
        crate::text::utf16_len(Seq::new(n, |i: int| c)) == crate::text::utf16_units(c) * n,
    decreases n,
{
    if n > 0 {
        lemma_utf16_len_fill(c, (n - 1) as nat);
        let s = Seq::new(n, |i: int| c);
        assert(s.drop_last() =~= Seq::new((n - 1) as nat, |i: int| c));
        assert(crate::text::utf16_units(c) * (n - 1) + crate::text::utf16_units(c)
            == crate::text::utf16_units(c) * n) by (nonlinear_arith);
    } else {
        assert(Seq::new(n, |i: int| c).len() == 0);
    }
}

proof fn lemma_units_sum_two(x: Piece, y: Piece)
    ensures
        units_sum(seq![x, y]) == crate::text::utf16_len(piece_chars(x)) + crate::text::utf16_len(
            piece_chars(y),
        ),
{
    reveal_with_fuel(units_sum, 3);
    assert(seq![x, y].skip(1) =~= seq![y]);
    assert(seq![y].skip(1) =~= Seq::<Piece>::empty());
}

proof fn lemma_units_sum_one(x: Piece)
    ensures
        units_sum(seq![x]) == crate::text::utf16_len(piece_chars(x)),
{
    reveal_with_fuel(units_sum, 2);
    assert(seq![x].skip(1) =~= Seq::<Piece>::empty());
}

proof fn lemma_align_units(l: Layout, p: Parts, value: Seq<char>, padding: nat)
    requires
        crate::text::utf16_units(l.fill) == 1,
    ensures
        units_sum(align_pieces(l, p, value, padding)) == crate::text::utf16_len(p.sign_prefix)
            + crate::text::utf16_len(l.prefix@) + crate::text::utf16_len(value) + suffix_len(l, p)
            + padding,
{
    let pre = seq![Piece::Text(p.sign_prefix), Piece::Text(l.prefix@)];
    let suf = seq![
        Piece::Text(p.tail_decimal),
        Piece::Text(p.tail),
        Piece::Text(p.si_suffix),
        Piece::Text(l.suffix@),
        Piece::Text(p.close),
    ];
    lemma_units_sum_two(Piece::Text(p.sign_prefix), Piece::Text(l.prefix@));
    assert(units_sum(suf) == suffix_len(l, p)) by {
        reveal_with_fuel(units_sum, 6);
        assert(suf.skip(1) =~= seq![Piece::Text(p.tail), Piece::Text(p.si_suffix), Piece::Text(l.suffix@), Piece::Text(p.close)]);
        assert(suf.skip(1).skip(1) =~= seq![Piece::Text(p.si_suffix), Piece::Text(l.suffix@), Piece::Text(p.close)]);
        assert(suf.skip(1).skip(1).skip(1) =~= seq![Piece::Text(l.suffix@), Piece::Text(p.close)]);
        assert(suf.skip(1).skip(1).skip(1).skip(1) =~= seq![Piece::Text(p.close)]);
        assert(suf.skip(1).skip(1).skip(1).skip(1).skip(1) =~= Seq::<Piece>::empty());
    }
    let v = seq![Piece::Text(value)];
    lemma_units_sum_one(Piece::Text(value));
    lemma_utf16_len_fill(l.fill, padding);
    lemma_utf16_len_fill(l.fill, padding / 2);
    lemma_utf16_len_fill(l.fill, (padding - padding / 2) as nat);
    match l.align {
        Align::Left => {
            let f = seq![Piece::Fill(l.fill, padding)];
            lemma_units_sum_one(Piece::Fill(l.fill, padding));
            lemma_units_sum_concat(pre, v);
            lemma_units_sum_concat(pre + v, suf);
            lemma_units_sum_concat(pre + v + suf, f);
        },
        Align::AfterSign => {
            let fv = seq![Piece::Fill(l.fill, padding), Piece::Text(value)];
            lemma_units_sum_two(Piece::Fill(l.fill, padding), Piece::Text(value));
            lemma_units_sum_concat(pre, fv);
            lemma_units_sum_concat(pre + fv, suf);
        },
        Align::Center => {
            let f1 = seq![Piece::Fill(l.fill, padding / 2)];
            let f2 = seq![Piece::Fill(l.fill, (padding - padding / 2) as nat)];
            lemma_units_sum_one(Piece::Fill(l.fill, padding / 2));
            lemma_units_sum_one(Piece::Fill(l.fill, (padding - padding / 2) as nat));
            lemma_units_sum_concat(f1, pre);
            lemma_units_sum_concat(f1 + pre, v);
            lemma_units_sum_concat(f1 + pre + v, suf);
            lemma_units_sum_concat(f1 + pre + v + suf, f2);
        },
        Align::Right => {
            let f = seq![Piece::Fill(l.fill, padding)];
            lemma_units_sum_one(Piece::Fill(l.fill, padding));
            lemma_units_sum_concat(f, pre);
            lemma_units_sum_concat(f + pre, v);
            lemma_units_sum_concat(f + pre + v, suf);
        },
    }
}

/// The assembled text of one layout, with and without its width: it is as long
/// as the width or as long as the unpadded text, whichever is longer.
proof fn lemma_assemble_width(
    l: Layout,
    grouping: Option<(Seq<u32>, Seq<char>)>,
    max: usize,
    p: Parts,
)
    requires
        crate::text::utf16_units(l.fill) == 1,
        !(l.comma && l.zero && grouping is Some),
    ensures
        ({
            let unpadded = Layout { width: 0, ..l };
            spec_assemble(l, grouping, max, p) matches Ok(out) ==> crate::text::utf16_len(out)
                >= l.width && (spec_assemble(unpadded, grouping, max, p) matches Ok(natural)
                ==> crate::text::utf16_len(out) == if l.width > crate::text::utf16_len(natural) {
                l.width as nat
            } else {
                crate::text::utf16_len(natural)
            })
        }),
{
    let unpadded = Layout { width: 0, ..l };
    let empty = Seq::<char>::empty();
    match group_value(l, grouping, p.value, max) {
        Err(e) => {},
        Ok(value) => {
            assert(group_value(unpadded, grouping, p.value, max) == Ok::<Seq<char>, FormatError>(value));
            assert(suffix_len(unpadded, p) == suffix_len(l, p));
            let length = crate::text::utf16_len(p.sign_prefix) + crate::text::utf16_len(l.prefix@)
                + crate::text::utf16_len(value) + suffix_len(l, p);
            if length <= usize::MAX {
                let padding: nat = if l.width > length {
                    (l.width - length) as nat
                } else {
                    0
                };
                assert(align_pieces(unpadded, p, value, 0) == align_pieces(l, p, value, 0));
                if l.comma && l.zero {
                    // No grouping: the padding joins the digits as fill, unchanged.
                    let fills = Seq::new(padding, |i: int| l.fill);
                    crate::text::lemma_decode_encode_utf16(fills + value);
                    crate::text::lemma_decode_encode_utf16(Seq::new(0, |i: int| l.fill) + value);
                    assert(Seq::new(0, |i: int| l.fill) + value =~= value);
                    lemma_utf16_len_fill(l.fill, padding);
                    crate::text::lemma_utf16_len_add(fills, value);
                    let v = fills + value;
                    assert(crate::text::utf16_len(v) == padding + crate::text::utf16_len(value));
                    match zero_group(l, grouping, value, padding, suffix_len(l, p), max) {
                        Err(e) => {},
                        Ok(w) => {
                            assert(w == v);
                            lemma_run_pieces_ok(empty, align_pieces(l, p, v, 0), max);
                            lemma_units_sum(align_pieces(l, p, v, 0));
                            lemma_align_units(l, p, v, 0);
                            assert(empty + pieces_chars(align_pieces(l, p, v, 0)) =~= pieces_chars(
                                align_pieces(l, p, v, 0),
                            ));
                        },
                    }
                    match zero_group(unpadded, grouping, value, 0, suffix_len(l, p), max) {
                        Err(e) => {},
                        Ok(w) => {
                            assert(w == value);
                            lemma_run_pieces_ok(empty, align_pieces(unpadded, p, value, 0), max);
                            lemma_units_sum(align_pieces(unpadded, p, value, 0));
                            lemma_align_units(unpadded, p, value, 0);
                            assert(empty + pieces_chars(align_pieces(unpadded, p, value, 0))
                                =~= pieces_chars(align_pieces(unpadded, p, value, 0)));
                        },
                    }
                } else {
                    lemma_run_pieces_ok(empty, align_pieces(l, p, value, padding), max);
                    lemma_units_sum(align_pieces(l, p, value, padding));
                    lemma_align_units(l, p, value, padding);
                    assert(empty + pieces_chars(align_pieces(l, p, value, padding)) =~= pieces_chars(
                        align_pieces(l, p, value, padding),
                    ));
                    lemma_run_pieces_ok(empty, align_pieces(unpadded, p, value, 0), max);
                    lemma_units_sum(align_pieces(unpadded, p, value, 0));
                    lemma_align_units(unpadded, p, value, 0);
                    assert(empty + pieces_chars(align_pieces(unpadded, p, value, 0)) =~= pieces_chars(
                        align_pieces(unpadded, p, value, 0),
                    ));
                }
            }
        },
    }
}

/// Group sizes that are all positive, at least one of them, and a separator of at
/// least one UTF-16 code unit (or no grouping).
pub open spec fn grouping_separates(grouping: Option<(Seq<u32>, Seq<char>)>) -> bool {
    match grouping {
        Some((sizes, th)) => sizes.len() > 0 && (forall|k: int|
            0 <= k < sizes.len() ==> #[trigger] sizes[k] > 0) && crate::text::utf16_len(th) >= 1,
        None => true,
    }
}

/// Zero fill grouped with a separator still reaches the width: the padding and
/// the digits are grouped up to the width less the suffix, and a separator of at
/// least one unit never makes the groups shorter than what they cut.
proof fn lemma_assemble_grouped_zero_width(
    l: Layout,
    grouping: Option<(Seq<u32>, Seq<char>)>,
    max: usize,
    p: Parts,
)
    requires
        crate::text::utf16_units(l.fill) == 1,
        l.comma && l.zero,
        grouping is Some,
        grouping_separates(grouping),
    ensures
        spec_assemble(l, grouping, max, p) matches Ok(out) ==> crate::text::utf16_len(out)
            >= l.width,
{
    let (sizes, th) = grouping.unwrap();
    let empty = Seq::<char>::empty();
    let value = p.value;
    assert(group_value(l, grouping, value, max) == Ok::<Seq<char>, FormatError>(value));
    let sfx = suffix_len(l, p);
    let length = crate::text::utf16_len(p.sign_prefix) + crate::text::utf16_len(l.prefix@)
        + crate::text::utf16_len(value) + sfx;
    if length <= usize::MAX {
        let padding: nat = if l.width > length {
            (l.width - length) as nat
        } else {
            0
        };
        match zero_group(l, grouping, value, padding, sfx, max) {
            Err(e) => {},
            Ok(v) => {
                let fills = Seq::new(padding, |i: int| l.fill);
                let units = encode_utf16(fills + value);
                crate::text::lemma_encode_utf16_len(fills + value);
                crate::text::lemma_utf16_len_add(fills, value);
                lemma_utf16_len_fill(l.fill, padding);
                assert(units.len() == padding + crate::text::utf16_len(value));
                let budget: Option<int> = if padding > 0 {
                    Some(l.width - sfx)
                } else {
                    None
                };
                let spans = crate::grouping::all_spans(units.len() as int, sizes, budget);
                let sep = encode_utf16(th);
                crate::text::lemma_encode_utf16_len(th);
                let joined = crate::grouping::join_rev(units, spans, sep);
                assert(v == crate::text::decode_utf16(joined));
                crate::text::lemma_decode_utf16_len(joined);
                if units.len() > 0 {
                    assert(crate::grouping::first_size(sizes) > 0) by {
                        assert(sizes[0] > 0);
                    }
                    crate::grouping::lemma_group_spans_reach(
                        units,
                        sep,
                        units.len() as int,
                        0,
                        crate::grouping::first_size(sizes),
                        0,
                        sizes,
                        budget,
                    );
                } else {
                    assert(spans.len() == 0);
                    assert(joined.len() == 0);
                }
                lemma_run_pieces_ok(empty, align_pieces(l, p, v, 0), max);
                lemma_units_sum(align_pieces(l, p, v, 0));
                lemma_align_units(l, p, v, 0);
                assert(empty + pieces_chars(align_pieces(l, p, v, 0)) =~= pieces_chars(
                    align_pieces(l, p, v, 0),
                ));
            },
        }
    }
}

/// Numerals of at least one code unit each never shorten, in UTF-16 code units,
/// what they rewrite.
proof fn lemma_numerals_never_shorten(a: Seq<char>, n: Seq<Seq<char>>)
    requires
        n.len() == 10,
        forall|k: int| 0 <= k < 10 ==> crate::text::utf16_len(#[trigger] n[k]) >= 1,
    ensures
        crate::text::utf16_len(pieces_chars(numeral_pieces(a, n))) >= crate::text::utf16_len(a),
    decreases a.len(),
{
    let ps = numeral_pieces(a, n);
    if a.len() == 0 {
        assert(pieces_chars(ps) =~= Seq::<char>::empty());
    } else {
        assert(ps.skip(1) =~= numeral_pieces(a.skip(1), n));
        lemma_numerals_never_shorten(a.skip(1), n);
        assert(a =~= seq![a[0]] + a.skip(1));
        crate::text::lemma_utf16_len_add(seq![a[0]], a.skip(1));
        crate::text::lemma_utf16_len_one(a[0]);
        crate::text::lemma_utf16_len_add(piece_chars(ps[0]), pieces_chars(ps.skip(1)));
        if is_ascii_digit(a[0]) {
            assert(crate::text::digit_value(a[0]) < 10);
            assert(crate::text::utf16_units(a[0]) == 1);
        } else {
            assert(piece_chars(ps[0]) =~= seq![a[0]]);
        }
    }
}

/// Numerals of one code unit each keep the UTF-16 length of what they rewrite.
proof fn lemma_numerals_keep_length(a: Seq<char>, n: Seq<Seq<char>>)
    requires
        n.len() == 10,
        forall|k: int| 0 <= k < 10 ==> crate::text::utf16_len(#[trigger] n[k]) == 1,
    ensures
        crate::text::utf16_len(pieces_chars(numeral_pieces(a, n))) == crate::text::utf16_len(a),
    decreases a.len(),
{
    let ps = numeral_pieces(a, n);
    if a.len() == 0 {
        assert(pieces_chars(ps) =~= Seq::<char>::empty());
    } else {
        assert(ps.skip(1) =~= numeral_pieces(a.skip(1), n));
        lemma_numerals_keep_length(a.skip(1), n);
        assert(a =~= seq![a[0]] + a.skip(1));
        crate::text::lemma_utf16_len_add(seq![a[0]], a.skip(1));
        crate::text::lemma_utf16_len_one(a[0]);
        crate::text::lemma_utf16_len_add(piece_chars(ps[0]), pieces_chars(ps.skip(1)));
        if is_ascii_digit(a[0]) {
            assert(crate::text::digit_value(a[0]) < 10);
            assert(crate::text::utf16_units(a[0]) == 1);
        } else {
            assert(piece_chars(ps[0]) =~= seq![a[0]]);
        }
    }
}

/// No numerals, or ten numerals of one UTF-16 code unit each.
pub open spec fn numerals_of_one_unit(numerals: Option<Seq<Seq<char>>>) -> bool {
    numerals matches Some(n) ==> forall|k: int|
        0 <= k < 10 ==> crate::text::utf16_len(#[trigger] n[k]) == 1
}

/// A width is a minimum, counted in UTF-16 code units: laid out with a width, a
/// value is at least as long as the width, for numerals of at least one code unit
/// each (or none) and, where zero fill is grouped, group sizes above zero and a
/// separator of at least one unit. Unless zero fill is grouped with a separator,
/// and with numerals of one code unit each, it is exactly as long as the width or
/// as long as it is without one, whichever is longer.
pub proof fn lemma_lay_out_width_is_a_minimum(
    l: Layout,
    grouping: Option<(Seq<u32>, Seq<char>)>,
    numerals: Option<Seq<Seq<char>>>,
    max: usize,
    p: Parts,
)
    requires
        crate::text::utf16_units(l.fill) == 1,
        l.comma && l.zero ==> grouping_separates(grouping),
        numerals matches Some(n) ==> n.len() == 10 && forall|k: int|
            0 <= k < 10 ==> crate::text::utf16_len(#[trigger] n[k]) >= 1,
    ensures
        spec_lay_out(l, grouping, numerals, max, p) matches Ok(out) ==> crate::text::utf16_len(
            out,
        ) >= l.width,
        ({
            let unpadded = Layout { width: 0, ..l };
            !(l.comma && l.zero && grouping is Some) && numerals_of_one_unit(numerals) ==> (spec_lay_out(l, grouping, numerals, max, p) matches Ok(
                out,
            ) ==> (spec_lay_out(
                unpadded,
                grouping,
                numerals,
                max,
                p,
            ) matches Ok(natural) ==> crate::text::utf16_len(out) == if l.width
                > crate::text::utf16_len(natural) {
                l.width as nat
            } else {
                crate::text::utf16_len(natural)
            }))
        }),
{
    let unpadded = Layout { width: 0, ..l };
    let empty = Seq::<char>::empty();
    if l.comma && l.zero && grouping is Some {
        lemma_assemble_grouped_zero_width(l, grouping, max, p);
    } else {
        lemma_assemble_width(l, grouping, max, p);
    }
    if let Some(n) = numerals {
        let exact = forall|k: int| 0 <= k < 10 ==> crate::text::utf16_len(#[trigger] n[k]) == 1;
        if let Ok(a) = spec_assemble(l, grouping, max, p) {
            lemma_run_pieces_ok(empty, numeral_pieces(a, n), max);
            lemma_numerals_never_shorten(a, n);
            if exact {
                lemma_numerals_keep_length(a, n);
            }
            assert(empty + pieces_chars(numeral_pieces(a, n)) =~= pieces_chars(numeral_pieces(a, n)));
        }
        if let Ok(a0) = spec_assemble(unpadded, grouping, max, p) {
            lemma_run_pieces_ok(empty, numeral_pieces(a0, n), max);
            if exact {
                lemma_numerals_keep_length(a0, n);
            }
            assert(empty + pieces_chars(numeral_pieces(a0, n)) =~= pieces_chars(
                numeral_pieces(a0, n),
            ));
        }
    }
}

/// Two layouts that resolve everything alike but, at most, the width.
pub open spec fn same_but_width(a: Layout, b: Layout) -> bool {
    &&& a.fill == b.fill
    &&& a.align == b.align
    &&& a.sign == b.sign
    &&& a.zero == b.zero
    &&& a.comma == b.comma
    &&& a.precision == b.precision
    &&& a.trim == b.trim
    &&& a.resolved_type == b.resolved_type
    &&& a.maybe_suffix == b.maybe_suffix
    &&& a.prefix@ == b.prefix@
    &&& a.suffix@ == b.suffix@
    &&& a.prefix_scale == b.prefix_scale
}

/// `n` copies of `c`.
pub open spec fn fill_run(c: char, n: nat) -> Seq<char> {
    Seq::new(n, |i: int| c)
}

/// `natural` padded with `k` copies of `fill` where `align` puts them: all in
/// front, all behind, half in front and the rest behind, or in one run after the
/// first `lead` characters (the sign and the prefix).
pub open spec fn padded(align: Align, fill: char, k: nat, natural: Seq<char>, lead: nat) -> Seq<char> {
    match align {
        Align::Left => natural + fill_run(fill, k),
        Align::Right => fill_run(fill, k) + natural,
        Align::Center => fill_run(fill, k / 2) + natural + fill_run(fill, (k - k / 2) as nat),
        Align::AfterSign => natural.take(lead as int) + fill_run(fill, k) + natural.skip(lead as int),
    }
}

/// The characters of a laid-out value without padding: sign, prefix, value,
/// tails, suffix and closing parenthesis.
spec fn core_chars(l: Layout, p: Parts, value: Seq<char>) -> Seq<char> {
    p.sign_prefix + l.prefix@ + value + p.tail_decimal + p.tail + p.si_suffix + l.suffix@ + p.close
}

proof fn lemma_pieces_chars_concat(a: Seq<Piece>, b: Seq<Piece>)
    ensures
        pieces_chars(a + b) == pieces_chars(a) + pieces_chars(b),
    decreases a.len(),
{
    if a.len() == 0 {
        assert(a + b =~= b);
        assert(pieces_chars(a) =~= Seq::<char>::empty());
        assert(pieces_chars(a) + pieces_chars(b) =~= pieces_chars(b));
    } else {
        assert((a + b).skip(1) =~= a.skip(1) + b);
        assert((a + b)[0] == a[0]);
        lemma_pieces_chars_concat(a.skip(1), b);
        assert(pieces_chars(a + b) =~= pieces_chars(a) + pieces_chars(b));
    }
}

proof fn lemma_pieces_chars_one(x: Piece)
    ensures
        pieces_chars(seq![x]) == piece_chars(x),
{
    assert(seq![x].skip(1) =~= Seq::<Piece>::empty());
    assert(pieces_chars(Seq::<Piece>::empty()) =~= Seq::<char>::empty());
    assert(piece_chars(x) + Seq::<char>::empty() =~= piece_chars(x));
}

/// The characters the alignment puts out: the unpadded text with the padding
/// where the alignment places it.
proof fn lemma_align_chars(l: Layout, p: Parts, value: Seq<char>, padding: nat)
    ensures
        pieces_chars(align_pieces(l, p, value, padding)) == padded(
            l.align,
            l.fill,
            padding,
            core_chars(l, p, value),
            p.sign_prefix.len() + l.prefix@.len(),
        ),
{
    let a = Piece::Text(p.sign_prefix);
    let b = Piece::Text(l.prefix@);
    let v = Piece::Text(value);
    let s1 = Piece::Text(p.tail_decimal);
    let s2 = Piece::Text(p.tail);
    let s3 = Piece::Text(p.si_suffix);
    let s4 = Piece::Text(l.suffix@);
    let s5 = Piece::Text(p.close);
    let pre = seq![a, b];
    let suf = seq![s1, s2, s3, s4, s5];
    assert(pre =~= seq![a] + seq![b]);
    lemma_pieces_chars_concat(seq![a], seq![b]);
    lemma_pieces_chars_one(a);
    lemma_pieces_chars_one(b);
    let pc = p.sign_prefix + l.prefix@;
    assert(pieces_chars(pre) == pc);
    assert(suf =~= seq![s1] + (seq![s2] + (seq![s3] + (seq![s4] + seq![s5]))));
    lemma_pieces_chars_one(s1);
    lemma_pieces_chars_one(s2);
    lemma_pieces_chars_one(s3);
    lemma_pieces_chars_one(s4);
    lemma_pieces_chars_one(s5);
    lemma_pieces_chars_concat(seq![s4], seq![s5]);
    lemma_pieces_chars_concat(seq![s3], seq![s4] + seq![s5]);
    lemma_pieces_chars_concat(seq![s2], seq![s3] + (seq![s4] + seq![s5]));
    lemma_pieces_chars_concat(seq![s1], seq![s2] + (seq![s3] + (seq![s4] + seq![s5])));
    let sc = p.tail_decimal + (p.tail + (p.si_suffix + (l.suffix@ + p.close)));
    assert(pieces_chars(suf) == sc);
    lemma_pieces_chars_one(v);
    let core = core_chars(l, p, value);
    assert(core =~= pc + value + sc);
    let lead = p.sign_prefix.len() + l.prefix@.len();
    match l.align {
        Align::Left => {
            let f = Piece::Fill(l.fill, padding);
            lemma_pieces_chars_one(f);
            lemma_pieces_chars_concat(pre, seq![v]);
            lemma_pieces_chars_concat(pre + seq![v], suf);
            lemma_pieces_chars_concat(pre + seq![v] + suf, seq![f]);
            assert(pieces_chars(align_pieces(l, p, value, padding)) =~= core + fill_run(
                l.fill,
                padding,
            ));
        },
        Align::Right => {
            let f = Piece::Fill(l.fill, padding);
            lemma_pieces_chars_one(f);
            lemma_pieces_chars_concat(seq![f], pre);
            lemma_pieces_chars_concat(seq![f] + pre, seq![v]);
            lemma_pieces_chars_concat(seq![f] + pre + seq![v], suf);
            assert(pieces_chars(align_pieces(l, p, value, padding)) =~= fill_run(l.fill, padding)
                + core);
        },
        Align::Center => {
            let f1 = Piece::Fill(l.fill, padding / 2);
            let f2 = Piece::Fill(l.fill, (padding - padding / 2) as nat);
            lemma_pieces_chars_one(f1);
            lemma_pieces_chars_one(f2);
            lemma_pieces_chars_concat(seq![f1], pre);
            lemma_pieces_chars_concat(seq![f1] + pre, seq![v]);
            lemma_pieces_chars_concat(seq![f1] + pre + seq![v], suf);
            lemma_pieces_chars_concat(seq![f1] + pre + seq![v] + suf, seq![f2]);
            assert(pieces_chars(align_pieces(l, p, value, padding)) =~= fill_run(
                l.fill,
                padding / 2,
            ) + core + fill_run(l.fill, (padding - padding / 2) as nat));
        },
        Align::AfterSign => {
            let f = Piece::Fill(l.fill, padding);
            let fv = seq![f, v];
            assert(fv =~= seq![f] + seq![v]);
            lemma_pieces_chars_one(f);
            lemma_pieces_chars_concat(seq![f], seq![v]);
            lemma_pieces_chars_concat(pre, fv);
            lemma_pieces_chars_concat(pre + fv, suf);
            assert(core.take(lead as int) =~= pc);
            assert(core.skip(lead as int) =~= value + sc);
            assert(pieces_chars(align_pieces(l, p, value, padding)) =~= core.take(lead as int) + fill_run(
                l.fill,
                padding,
            ) + core.skip(lead as int));
        },
    }
}

/// A width pads what the same layout puts out without one: laid out with a
/// width, a value is the unpadded text with as many fill characters as the width
/// is longer (in UTF-16 code units), placed as the alignment says (after the sign
/// and prefix for `=`, where zero fill also goes). Stated for a fill of one code
/// unit, no numerals, and outside zero fill grouped with a separator.
pub proof fn lemma_lay_out_pads_the_unpadded(
    l: Layout,
    u: Layout,
    grouping: Option<(Seq<u32>, Seq<char>)>,
    max: usize,
    p: Parts,
)
    requires
        same_but_width(l, u),
        u.width == 0,
        crate::text::utf16_units(l.fill) == 1,
        l.zero ==> l.align == Align::AfterSign,
        !(l.comma && l.zero && grouping is Some),
    ensures
        spec_lay_out(l, grouping, None, max, p) matches Ok(out) ==> (spec_lay_out(
            u,
            grouping,
            None,
            max,
            p,
        ) matches Ok(natural) ==> out == padded(
            l.align,
            l.fill,
            (if l.width > crate::text::utf16_len(natural) {
                l.width - crate::text::utf16_len(natural)
            } else {
                0
            }) as nat,
            natural,
            p.sign_prefix.len() + l.prefix@.len(),
        )),
{
    let empty = Seq::<char>::empty();
    assert(group_value(u, grouping, p.value, max) == group_value(l, grouping, p.value, max));
    assert(suffix_len(u, p) == suffix_len(l, p));
    match group_value(l, grouping, p.value, max) {
        Err(e) => {},
        Ok(value) => {
            let length = crate::text::utf16_len(p.sign_prefix) + crate::text::utf16_len(l.prefix@)
                + crate::text::utf16_len(value) + suffix_len(l, p);
            if length <= usize::MAX {
                let padding: nat = if l.width > length {
                    (l.width - length) as nat
                } else {
                    0
                };
                let lead = p.sign_prefix.len() + l.prefix@.len();
                assert(align_pieces(u, p, value, 0) == align_pieces(l, p, value, 0));
                lemma_align_chars(l, p, value, 0);
                lemma_align_units(l, p, value, 0);
                lemma_units_sum(align_pieces(l, p, value, 0));
                let core = core_chars(l, p, value);
                assert(fill_run(l.fill, 0) =~= empty);
                assert(padded(l.align, l.fill, 0, core, lead) =~= core);
                lemma_run_pieces_ok(empty, align_pieces(l, p, value, 0), max);
                assert(empty + core =~= core);
                if l.comma && l.zero {
                    let fills = Seq::new(padding, |i: int| l.fill);
                    crate::text::lemma_decode_encode_utf16(fills + value);
                    crate::text::lemma_decode_encode_utf16(Seq::new(0, |i: int| l.fill) + value);
                    assert(Seq::new(0, |i: int| l.fill) + value =~= value);
                    let v = fills + value;
                    lemma_align_chars(l, p, v, 0);
                    lemma_run_pieces_ok(empty, align_pieces(l, p, v, 0), max);
                    let cv = core_chars(l, p, v);
                    assert(padded(l.align, l.fill, 0, cv, lead) =~= cv);
                    assert(empty + cv =~= cv);
                    assert(cv =~= core.take(lead as int) + fill_run(l.fill, padding) + core.skip(lead as int));
                } else {
                    lemma_align_chars(l, p, value, padding);
                    lemma_run_pieces_ok(empty, align_pieces(l, p, value, padding), max);
                    assert(empty + padded(l.align, l.fill, padding, core, lead) =~= padded(
                        l.align,
                        l.fill,
                        padding,
                        core,
                        lead,
                    ));
                }
            }
        },
    }
}

/// Substitution works character by character, so it splits over a concatenation.
proof fn lemma_numeral_pieces_concat(a: Seq<char>, b: Seq<char>, n: Seq<Seq<char>>)
    ensures
        numeral_pieces(a + b, n) == numeral_pieces(a, n) + numeral_pieces(b, n),
{
    assert forall|i: int| 0 <= i < (a + b).len() implies #[trigger] numeral_pieces(a + b, n)[i] == (
    numeral_pieces(a, n) + numeral_pieces(b, n))[i] by {
        if i < a.len() {
            assert((a + b)[i] == a[i]);
        } else {
            assert((a + b)[i] == b[i - a.len()]);
        }
    }
    assert(numeral_pieces(a + b, n) =~= numeral_pieces(a, n) + numeral_pieces(b, n));
}

/// Substitution leaves text without ASCII digits as it is.
proof fn lemma_numerals_keep_digitless(s: Seq<char>, n: Seq<Seq<char>>)
    requires
        !has_ascii_digit(s),
    ensures
        pieces_chars(numeral_pieces(s, n)) == s,
    decreases s.len(),
{
    let ps = numeral_pieces(s, n);
    if s.len() == 0 {
        assert(pieces_chars(ps) =~= s);
    } else {
        assert(ps.skip(1) =~= numeral_pieces(s.skip(1), n));
        assert(!has_ascii_digit(s.skip(1))) by {
            if has_ascii_digit(s.skip(1)) {
                let i = choose|i: int| 0 <= i < s.skip(1).len() && is_ascii_digit(#[trigger] s.skip(1)[i]);
                assert(s.skip(1)[i] == s[i + 1]);
            }
        }
        lemma_numerals_keep_digitless(s.skip(1), n);
        assert(!is_ascii_digit(s[0]));
        assert(piece_chars(ps[0]) =~= seq![s[0]]);
        assert(pieces_chars(ps) =~= s);
    }
}

/// Without padding, the alignment puts out the sign text, the rest, and the
/// closing text.
proof fn lemma_align_unpadded_ends(l: Layout, p: Parts, v: Seq<char>)
    ensures
        pieces_chars(align_pieces(l, p, v, 0)) == p.sign_prefix + (l.prefix@ + v + p.tail_decimal
            + p.tail + p.si_suffix + l.suffix@) + p.close,
{
    let empty = Seq::<char>::empty();
    lemma_align_chars(l, p, v, 0);
    let core = core_chars(l, p, v);
    let lead = p.sign_prefix.len() + l.prefix@.len();
    assert(fill_run(l.fill, 0) =~= empty);
    assert(padded(l.align, l.fill, 0, core, lead) =~= core);
    assert(core =~= p.sign_prefix + (l.prefix@ + v + p.tail_decimal + p.tail + p.si_suffix
        + l.suffix@) + p.close);
}

/// Assembled without a width, a value is its sign text, then the rest, then its
/// closing text.
#[verifier::rlimit(40)]
proof fn lemma_assemble_unpadded(l: Layout, grouping: Option<(Seq<u32>, Seq<char>)>, max: usize, p: Parts)
    requires
        l.width == 0,
    ensures
        spec_assemble(l, grouping, max, p) matches Ok(a) ==> exists|middle: Seq<char>|
            a == p.sign_prefix + middle + p.close,
{
    let empty = Seq::<char>::empty();
    if let Ok(a) = spec_assemble(l, grouping, max, p) {
        let value = group_value(l, grouping, p.value, max).unwrap();
        let v: Seq<char> = if l.comma && l.zero {
            zero_group(l, grouping, value, 0, suffix_len(l, p), max).unwrap()
        } else {
            value
        };
        assert(run_pieces(empty, align_pieces(l, p, v, 0), max) == Ok::<Seq<char>, FormatError>(a));
        lemma_run_pieces_ok(empty, align_pieces(l, p, v, 0), max);
        lemma_align_unpadded_ends(l, p, v);
        let middle = l.prefix@ + v + p.tail_decimal + p.tail + p.si_suffix + l.suffix@;
        assert(empty + pieces_chars(align_pieces(l, p, v, 0)) =~= pieces_chars(align_pieces(l, p, v, 0)));
        assert(a == p.sign_prefix + middle + p.close);
    }
}

/// Substituting numerals into a sign text, a middle and a closing text without
/// ASCII digits keeps the sign text in front and the closing text behind.
proof fn lemma_numerals_keep_the_ends(front: Seq<char>, middle: Seq<char>, back: Seq<char>, n: Seq<Seq<char>>)
    requires
        !has_ascii_digit(front),
        !has_ascii_digit(back),
    ensures
        pieces_chars(numeral_pieces(front + middle + back, n)) == front + pieces_chars(
            numeral_pieces(middle, n),
        ) + back,
{
    lemma_numeral_pieces_concat(front + middle, back, n);
    lemma_numeral_pieces_concat(front, middle, n);
    lemma_pieces_chars_concat(
        numeral_pieces(front, n) + numeral_pieces(middle, n),
        numeral_pieces(back, n),
    );
    lemma_pieces_chars_concat(numeral_pieces(front, n), numeral_pieces(middle, n));
    lemma_numerals_keep_digitless(front, n);
    lemma_numerals_keep_digitless(back, n);
}

/// Laid out without a width, a value is its sign text, then the rest, then its
/// closing text: nothing goes before the sign or after the closing parenthesis,
/// and numeral substitution leaves both alone when they hold no ASCII digit.
pub proof fn lemma_unpadded_starts_with_sign_and_ends_with_close(
    l: Layout,
    grouping: Option<(Seq<u32>, Seq<char>)>,
    numerals: Option<Seq<Seq<char>>>,
    max: usize,
    p: Parts,
)
    requires
        l.width == 0,
        !has_ascii_digit(p.sign_prefix),
        !has_ascii_digit(p.close),
    ensures
        spec_lay_out(l, grouping, numerals, max, p) matches Ok(out) ==> exists|middle: Seq<char>|
            out == p.sign_prefix + middle + p.close,
{
    lemma_assemble_unpadded(l, grouping, max, p);
    if let Ok(a) = spec_assemble(l, grouping, max, p) {
        let middle = choose|middle: Seq<char>| a == p.sign_prefix + middle + p.close;
        if let Some(n) = numerals {
            if let Ok(out) = spec_lay_out(l, grouping, numerals, max, p) {
                let empty = Seq::<char>::empty();
                lemma_run_pieces_ok(empty, numeral_pieces(a, n), max);
                lemma_numerals_keep_the_ends(p.sign_prefix, middle, p.close, n);
                let m2 = pieces_chars(numeral_pieces(middle, n));
                assert(empty + pieces_chars(numeral_pieces(a, n)) =~= pieces_chars(numeral_pieces(a, n)));
                assert(out == p.sign_prefix + m2 + p.close);
            }
        }
    }
}

// ---------------------------------------------------------------------------
// Executable layout
// ---------------------------------------------------------------------------

/// The parts of a value, as executable text.
pub struct ValueParts {
    pub sign_prefix: Vec<char>,
    pub value: Vec<char>,
    pub tail_decimal: Vec<char>,
    pub tail: Vec<char>,
    pub si_suffix: Vec<char>,
    pub close: Vec<char>,
}

impl View for ValueParts {
    type V = Parts;

    open spec fn view(&self) -> Parts {
        Parts {
            sign_prefix: self.sign_prefix@,
            value: self.value@,
            tail_decimal: self.tail_decimal@,
            tail: self.tail@,
            si_suffix: self.si_suffix@,
            close: self.close@,
        }
    }
}

pub open spec fn grouping_of(sizes: Option<&[u32]>, thousands: Seq<char>) -> Option<(Seq<u32>, Seq<char>)> {
    match sizes {
        Some(s) => Some((s@, thousands)),
        None => None,
    }
}

proof fn lemma_utf16_len_push(s: Seq<char>, c: char)
    ensures
        crate::text::utf16_len(s.push(c)) == crate::text::utf16_len(s) + crate::text::utf16_units(c),
{
    assert(s.push(c).drop_last() =~= s);
}

/// The UTF-16 length of `v`, exactly.
pub fn utf16_length(v: &Vec<char>) -> (n: u128)
    ensures
        n == crate::text::utf16_len(v@),
        n <= 2 * v@.len(),
        n <= 0x1_FFFF_FFFF_FFFF_FFFE,
{
    let vl = v.len();
    let mut n: u128 = 0;
    let mut i: usize = 0;
    while i < v.len()
        invariant
            i <= v@.len(),
            n == crate::text::utf16_len(v@.take(i as int)),
            n <= 2 * i,
        decreases v@.len() - i,
    {
        proof {
            assert(v@.take(i + 1) =~= v@.take(i as int).push(v@[i as int]));
            lemma_utf16_len_push(v@.take(i as int), v@[i as int]);
        }
        n = n + (crate::text::char_utf16_units(v[i]) as u128);
        i = i + 1;
    }
    assert(v@.take(i as int) =~= v@);
    n
}

fn copy_chars(v: &Vec<char>) -> (r: Vec<char>)
    ensures
        r@ == v@,
{
    let r = copy_range(v, 0, v.len());
    assert(v@.subrange(0, v@.len() as int) =~= v@);
    r
}

fn group_value_exec(
    l: &Layout,
    sizes: Option<&[u32]>,
    thousands: &Vec<char>,
    value: Vec<char>,
    max: usize,
) -> (r: Result<Vec<char>, FormatError>)
    ensures
        match r {
            Ok(v) => group_value(*l, grouping_of(sizes, thousands@), value@, max) == Ok::<
                Seq<char>,
                FormatError,
            >(v@),
            Err(e) => group_value(*l, grouping_of(sizes, thousands@), value@, max) == Err::<
                Seq<char>,
                FormatError,
            >(e),
        },
{
    if l.comma && !l.zero {
        if let Some(sz) = sizes {
            let n16 = utf16_length(&value);
            if n16 > (usize::MAX as u128) {
                return Err(FormatError::AllocationFailed);
            }
            if n16 > (max as u128) {
                return Err(FormatError::OutputLimit { requested: n16 as usize, maximum: max });
            }
            let mut units: Vec<u16> = Vec::new();
            crate::text::push_utf16(&mut units, &value);
            assert(units@ =~= encode_utf16(value@));
            return crate::grouping::group_units(&units, sz, thousands, None, max);
        }
    }
    Ok(value)
}

#[verifier::rlimit(40)]
fn zero_group_exec(
    l: &Layout,
    sizes: Option<&[u32]>,
    thousands: &Vec<char>,
    value: Vec<char>,
    padding: usize,
    suffix: u128,
    max: usize,
) -> (r: Result<Vec<char>, FormatError>)
    requires
        suffix <= usize::MAX,
    ensures
        match r {
            Ok(v) => zero_group(*l, grouping_of(sizes, thousands@), value@, padding as nat, suffix as int, max)
                == Ok::<Seq<char>, FormatError>(v@),
            Err(e) => zero_group(*l, grouping_of(sizes, thousands@), value@, padding as nat, suffix as int, max)
                == Err::<Seq<char>, FormatError>(e),
        },
{
    let per = crate::text::char_utf16_units(l.fill) as u128;
    let n16 = utf16_length(&value);
    assert(per * padding <= 2 * 0xFFFF_FFFF_FFFF_FFFF) by (nonlinear_arith)
        requires
            per <= 2,
            padding <= 0xFFFF_FFFF_FFFF_FFFF,
    ;
    let len: u128 = per * (padding as u128) + n16;
    assert(len == padding * crate::text::utf16_units(l.fill) + crate::text::utf16_len(value@)) by (nonlinear_arith)
        requires
            len == per * padding + n16,
            per == crate::text::utf16_units(l.fill),
            n16 == crate::text::utf16_len(value@),
    ;
    if len > (usize::MAX as u128) {
        return Err(FormatError::AllocationFailed);
    }
    if len > (max as u128) {
        return Err(FormatError::OutputLimit { requested: len as usize, maximum: max });
    }
    let mut padded: Vec<char> = Vec::new();
    let mut i: usize = 0;
    while i < padding
        invariant
            i <= padding,
            padded@ == Seq::new(i as nat, |k: int| l.fill),
        decreases padding - i,
    {
        padded.push(l.fill);
        assert(padded@ =~= Seq::new((i + 1) as nat, |k: int| l.fill));
        i = i + 1;
    }
    let ghost padded_fill = padded@;
    let mut k: usize = 0;
    while k < value.len()
        invariant
            k <= value@.len(),
            padded@ == padded_fill + value@.take(k as int),
        decreases value@.len() - k,
    {
        padded.push(value[k]);
        assert(value@.take(k + 1) =~= value@.take(k as int).push(value@[k as int]));
        k = k + 1;
    }
    assert(value@.take(k as int) =~= value@);
    let mut units: Vec<u16> = Vec::new();
    crate::text::push_utf16(&mut units, &padded);
    assert(units@ =~= encode_utf16(Seq::new(padding as nat, |i: int| l.fill) + value@));
    match sizes {
        Some(sz) => {
            let budget: Option<i128> = if padding > 0 {
                Some((l.width as i128) - (suffix as i128))
            } else {
                None
            };
            crate::grouping::group_units(&units, sz, thousands, budget, max)
        },
        None => Ok(crate::text::decode_utf16_lossy(&units)),
    }
}

fn text_part(v: &Vec<char>) -> (p: Part)
    ensures
        part_view(p) == Piece::Text(v@),
{
    Part::Text(copy_chars(v))
}

/// Assembles the parts of a value: grouping, padding and alignment, under the
/// byte limit `max`.
pub fn assemble(
    l: &Layout,
    sizes: Option<&[u32]>,
    thousands: &Vec<char>,
    max: usize,
    parts: ValueParts,
) -> (r: Result<Vec<char>, FormatError>)
    ensures
        match r {
            Ok(v) => spec_assemble(*l, grouping_of(sizes, thousands@), max, parts@) == Ok::<
                Seq<char>,
                FormatError,
            >(v@),
            Err(e) => spec_assemble(*l, grouping_of(sizes, thousands@), max, parts@) == Err::<
                Seq<char>,
                FormatError,
            >(e),
        },
{
    let ghost p = parts@;
    let ValueParts { sign_prefix, value, tail_decimal, tail, si_suffix, close } = parts;
    let value = match group_value_exec(l, sizes, thousands, value, max) {
        Ok(v) => v,
        Err(e) => {
            return Err(e);
        },
    };
    let prefix = chars_of(l.prefix.as_str());
    let suffix = chars_of(l.suffix.as_str());
    let prefix_len = utf16_length(&sign_prefix) + utf16_length(&prefix);
    let suffix_total = utf16_length(&tail_decimal) + utf16_length(&tail) + utf16_length(&si_suffix)
        + utf16_length(&suffix) + utf16_length(&close);
    assert(suffix_total == suffix_len(*l, p));
    let length: u128 = prefix_len + utf16_length(&value) + suffix_total;
    if length > (usize::MAX as u128) {
        return Err(FormatError::AllocationFailed);
    }
    let padding: usize = if (l.width as u128) > length {
        ((l.width as u128) - length) as usize
    } else {
        0
    };
    let (value, padding) = if l.comma && l.zero {
        match zero_group_exec(l, sizes, thousands, value, padding, suffix_total, max) {
            Ok(v) => (v, 0),
            Err(e) => {
                return Err(e);
            },
        }
    } else {
        (value, padding)
    };
    let out = align_parts(l, &sign_prefix, &prefix, &value, &tail_decimal, &tail, &si_suffix, &suffix, &close, padding);
    proof {
        assert(p.sign_prefix == sign_prefix@);
    }
    run_parts(&out, max)
}

fn align_parts(
    l: &Layout,
    sign_prefix: &Vec<char>,
    prefix: &Vec<char>,
    value: &Vec<char>,
    tail_decimal: &Vec<char>,
    tail: &Vec<char>,
    si_suffix: &Vec<char>,
    suffix: &Vec<char>,
    close: &Vec<char>,
    padding: usize,
) -> (out: Vec<Part>)
    requires
        prefix@ == l.prefix@,
        suffix@ == l.suffix@,
    ensures
        parts_view(out@) == align_pieces(
            *l,
            Parts {
                sign_prefix: sign_prefix@,
                value: Seq::<char>::empty(),
                tail_decimal: tail_decimal@,
                tail: tail@,
                si_suffix: si_suffix@,
                close: close@,
            },
            value@,
            padding as nat,
        ),
{
    let mut out: Vec<Part> = Vec::new();
    let head = padding / 2;
    match l.align {
        Align::Left => {},
        Align::AfterSign => {},
        Align::Center => {
            out.push(Part::Fill(l.fill, head));
        },
        Align::Right => {
            out.push(Part::Fill(l.fill, padding));
        },
    }
    out.push(text_part(sign_prefix));
    out.push(text_part(prefix));
    if l.align == Align::AfterSign {
        out.push(Part::Fill(l.fill, padding));
    }
    out.push(text_part(value));
    out.push(text_part(tail_decimal));
    out.push(text_part(tail));
    out.push(text_part(si_suffix));
    out.push(text_part(suffix));
    out.push(text_part(close));
    match l.align {
        Align::Left => {
            out.push(Part::Fill(l.fill, padding));
        },
        Align::Center => {
            out.push(Part::Fill(l.fill, padding - head));
        },
        _ => {},
    }
    assert(parts_view(out@) =~= align_pieces(
        *l,
        Parts {
            sign_prefix: sign_prefix@,
            value: Seq::<char>::empty(),
            tail_decimal: tail_decimal@,
            tail: tail@,
            si_suffix: si_suffix@,
            close: close@,
        },
        value@,
        padding as nat,
    ));
    out
}

/// Replaces every ASCII digit of `a` with the locale's numeral, under the byte
/// limit `max`.
pub fn substitute_numerals(a: &Vec<char>, numerals: &[String; 10], max: usize) -> (r: Result<
    Vec<char>,
    FormatError,
>)
    ensures
        match r {
            Ok(v) => run_pieces(
                Seq::<char>::empty(),
                numeral_pieces(a@, crate::locale::ten_texts(*numerals)),
                max,
            ) == Ok::<Seq<char>, FormatError>(v@),
            Err(e) => run_pieces(
                Seq::<char>::empty(),
                numeral_pieces(a@, crate::locale::ten_texts(*numerals)),
                max,
            ) == Err::<Seq<char>, FormatError>(e),
        },
{
    let mut parts: Vec<Part> = Vec::new();
    let mut i: usize = 0;
    let ghost n = crate::locale::ten_texts(*numerals);
    while i < a.len()
        invariant
            i <= a@.len(),
            n == crate::locale::ten_texts(*numerals),
            parts@.len() == i,
            parts_view(parts@) == numeral_pieces(a@, n).take(i as int),
        decreases a@.len() - i,
    {
        let c = a[i];
        let ghost before = parts@;
        let ghost want = numeral_pieces(a@, n)[i as int];
        if '0' <= c && c <= '9' {
            let d = crate::text::digit_index(c);
            let t = chars_of(numerals[d].as_str());
            assert(t@ == n[d as int]);
            assert(want == Piece::Text(t@));
            parts.push(Part::Text(t));
        } else {
            let mut t: Vec<char> = Vec::new();
            t.push(c);
            assert(want == Piece::Text(t@));
            parts.push(Part::Text(t));
        }
        assert(parts@ == before.push(parts@[i as int]));
        assert(part_view(parts@[i as int]) == want);
        assert forall|j: int| 0 <= j < i + 1 implies #[trigger] parts_view(parts@)[j] == numeral_pieces(a@, n)[j] by {
            if j < i {
                assert(parts@[j] == before[j]);
                assert(parts_view(before)[j] == numeral_pieces(a@, n).take(i as int)[j]);
            }
        }
        assert(parts_view(parts@) =~= numeral_pieces(a@, n).take(i + 1));
        i = i + 1;
    }
    assert(numeral_pieces(a@, n).take(i as int) =~= numeral_pieces(a@, n));
    run_parts(&parts, max)
}

// ---------------------------------------------------------------------------
// Text entry points
// ---------------------------------------------------------------------------

/// The number of UTF-16 code units in `text`, JavaScript's `length`; a count that
/// does not fit in `usize` is reported as `usize::MAX`.
pub fn utf16_len(text: &str) -> (n: usize)
    ensures
        crate::text::utf16_len(text@) <= usize::MAX ==> n == crate::text::utf16_len(text@),
        crate::text::utf16_len(text@) > usize::MAX ==> n == usize::MAX,
{
    let v = chars_of(text);
    let n = utf16_length(&v);
    if n > (usize::MAX as u128) {
        usize::MAX
    } else {
        n as usize
    }
}

/// d3's `formatTrim` on `text`, or `None` when it finds nothing to remove.
pub fn trim_insignificant(text: &str) -> (r: Option<String>)
    ensures
        match r {
            Some(t) => trim_scan(text@, 1, None, false, 0).0 is Some && t@ == spec_trim(text@),
            None => trim_scan(text@, 1, None, false, 0).0 is None,
        },
{
    let v = chars_of(text);
    let t = trim_chars(&v);
    if t.len() == v.len() {
        proof {
            if let (Some(st), last) = trim_scan(v@, 1, None, false, 0) {
                lemma_trim_scan_bounds(v@, 1, None, false, 0);
            }
        }
        None
    } else {
        Some(string_of(&t))
    }
}

proof fn lemma_trim_scan_bounds(s: Seq<char>, i: int, start: Option<int>, ended: bool, last: int)
    requires
        1 <= i,
        last < i,
        start matches Some(st) ==> 1 <= st <= last && last < s.len(),
    ensures
        trim_scan(s, i, start, ended, last) matches (Some(st), l) ==> 1 <= st <= l && l < s.len(),
    decreases s.len() - i,
{
    if i < s.len() {
        if s[i] == '.' {
            lemma_trim_scan_bounds(s, i + 1, Some(i), false, i);
        } else if s[i] == '0' {
            if ended {
                lemma_trim_scan_bounds(s, i + 1, Some(i), false, i);
            } else {
                lemma_trim_scan_bounds(s, i + 1, start, ended, i);
            }
        } else if '1' <= s[i] <= '9' {
            if start is Some {
                lemma_trim_scan_bounds(s, i + 1, None, true, last);
            } else {
                lemma_trim_scan_bounds(s, i + 1, start, ended, last);
            }
        }
    }
}

/// `text` as UTF-16 code units, refused when there are more than the output limit.
pub fn utf16_units(text: &str, limits: &FormatLimits) -> (r: Result<Vec<u16>, FormatError>)
    ensures
        match r {
            Ok(u) => crate::text::utf16_len(text@) <= limits.max_output_bytes && u@ == encode_utf16(
                text@,
            ),
            Err(e) => crate::text::utf16_len(text@) > limits.max_output_bytes && e == (
            FormatError::OutputLimit {
                requested: crate::text::utf16_len(text@) as usize,
                maximum: limits.max_output_bytes,
            }),
        },
{
    let v = chars_of(text);
    let n = utf16_length(&v);
    if n > (limits.max_output_bytes as u128) {
        return Err(FormatError::OutputLimit { requested: n as usize, maximum: limits.max_output_bytes });
    }
    let mut units: Vec<u16> = Vec::new();
    crate::text::push_utf16(&mut units, &v);
    assert(units@ =~= encode_utf16(text@));
    Ok(units)
}

/// d3's `formatGroup` over UTF-16 code units, with an optional width budget, under
/// the output limit.
pub fn group_units(
    units: &[u16],
    sizes: &[u32],
    thousands: &str,
    width: Option<i64>,
    limits: &FormatLimits,
) -> (r: Result<String, FormatError>)
    ensures
        match r {
            Ok(s) => crate::grouping::spec_group(units@, sizes@, thousands@, match width {
                Some(b) => Some(b as int),
                None => None,
            }, limits.max_output_bytes) == Ok::<Seq<char>, FormatError>(s@),
            Err(e) => crate::grouping::spec_group(units@, sizes@, thousands@, match width {
                Some(b) => Some(b as int),
                None => None,
            }, limits.max_output_bytes) == Err::<Seq<char>, FormatError>(e),
        },
{
    let mut u: Vec<u16> = Vec::new();
    let mut i: usize = 0;
    while i < units.len()
        invariant
            i <= units@.len(),
            u@ == units@.take(i as int),
        decreases units@.len() - i,
    {
        u.push(units[i]);
        assert(units@.take(i + 1) =~= units@.take(i as int).push(units@[i as int]));
        i = i + 1;
    }
    assert(units@.take(i as int) =~= units@);
    let th = chars_of(thousands);
    let w: Option<i128> = match width {
        Some(b) => Some(b as i128),
        None => None,
    };
    match crate::grouping::group_units(&u, sizes, &th, w, limits.max_output_bytes) {
        Ok(v) => Ok(string_of(&v)),
        Err(e) => Err(e),
    }
}

} // verus!
