//! Character-level text utilities: decimal rendering, marker strings, and
//! the line truncator that shortens overlong lines around an elision marker.

use vstd::prelude::*;

verus! {

/// The decimal digit character for a value below ten.
pub open spec fn spec_digit(d: int) -> char {
    if d == 0 {
        '0'
    } else if d == 1 {
        '1'
    } else if d == 2 {
        '2'
    } else if d == 3 {
        '3'
    } else if d == 4 {
        '4'
    } else if d == 5 {
        '5'
    } else if d == 6 {
        '6'
    } else if d == 7 {
        '7'
    } else if d == 8 {
        '8'
    } else {
        '9'
    }
}

/// The decimal rendering of a non-negative integer, most significant digit
/// first, with no leading zeros (a lone zero renders as "0").
pub open spec fn spec_decimal(n: int) -> Seq<char>
    recommends
        n >= 0,
    decreases n,
{
    if n < 10 {
        seq![spec_digit(n)]
    } else {
        spec_decimal(n / 10).push(spec_digit(n % 10))
    }
}

fn digit_char(d: usize) -> (c: char)
    requires
        d < 10,
    ensures
        c == spec_digit(d as int),
{
    match d {
        0 => '0',
        1 => '1',
        2 => '2',
        3 => '3',
        4 => '4',
        5 => '5',
        6 => '6',
        7 => '7',
        8 => '8',
        _ => '9',
    }
}

/// Appends the decimal rendering of `n` to `out`.
pub fn push_decimal(out: &mut Vec<char>, n: usize)
    ensures
        final(out)@ == old(out)@ + spec_decimal(n as int),
    decreases n,
{
    if n < 10 {
        out.push(digit_char(n));
        assert(final(out)@ =~= old(out)@ + spec_decimal(n as int));
    } else {
        push_decimal(out, n / 10);
        out.push(digit_char(n % 10));
        assert(final(out)@ =~= old(out)@ + spec_decimal(n as int));
    }
}

/// Collects the characters of a string slice into a vector.
pub fn chars_of(s: &str) -> (v: Vec<char>)
    ensures
        v@ == s@,
{
    let mut v: Vec<char> = Vec::new();
    for c in it: s.chars()
        invariant
            it.seq() == s@,
            v@ =~= it.seq().take(it.index()),
    {
        v.push(c);
    }
    assert(v@ =~= s@);
    v
}

/// Relies on String's FromIterator implementation for char: collecting
/// characters yields the string made of exactly those characters in order.
#[verifier::external_body]
pub(crate) fn string_from_chars(v: &Vec<char>) -> (s: String)
    ensures
        s@ == v@,
{
    v.iter().collect()
}

/// Appends the characters of `s` to `out`.
pub fn push_str_chars(out: &mut Vec<char>, s: &str)
    ensures
        final(out)@ == old(out)@ + s@,
{
    let mut cs = chars_of(s);
    out.append(&mut cs);
}

/// The marker spliced into an overlong line, reporting the removed characters.
pub open spec fn spec_char_marker(removed: int) -> Seq<char> {
    "[... "@ + spec_decimal(removed) + " chars ...]"@
}

/// What the line truncator produces for one line under a width budget.
///
/// A width of zero disables truncation. A line of at most `2 * width`
/// characters is kept whole. Otherwise the middle is replaced by a marker
/// reporting the removed character count — but only when that actually
/// shortens the line; a candidate at least as long as the input is discarded
/// and the line kept whole.
pub open spec fn spec_truncate(line: Seq<char>, width: int) -> Seq<char> {
    if width == 0 || line.len() <= 2 * width {
        line
    } else {
        let removed = line.len() - 2 * width;
        let marker = spec_char_marker(removed);
        if marker.len() >= removed {
            line
        } else {
            line.take(width) + marker + line.skip(line.len() - width)
        }
    }
}

fn char_marker(removed: usize) -> (v: Vec<char>)
    ensures
        v@ == spec_char_marker(removed as int),
{
    let mut v: Vec<char> = Vec::new();
    push_str_chars(&mut v, "[... ");
    push_decimal(&mut v, removed);
    push_str_chars(&mut v, " chars ...]");
    assert(v@ =~= spec_char_marker(removed as int));
    v
}

/// Shortens an overlong line around an elision marker, keeping the first and
/// last `width` characters; lines that truncation would not shorten pass
/// through unchanged. Characters are counted as Unicode scalar values, never
/// as bytes.
pub fn truncate_line(line: &str, width: usize) -> (r: String)
    ensures
        r@ == spec_truncate(line@, width as int),
{
    if width == 0 {
        return line.to_owned();
    }
    let cv = chars_of(line);
    let n = cv.len();
    if n <= width || n - width <= width {
        return line.to_owned();
    }
    let removed = n - width - width;
    let mut marker = char_marker(removed);
    if marker.len() >= removed {
        return line.to_owned();
    }
    let mut out: Vec<char> = Vec::new();
    for i in 0..width
        invariant
            out@ =~= cv@.take(i as int),
            width < cv@.len(),
    {
        out.push(cv[i]);
    }
    let ghost marker_view = marker@;
    out.append(&mut marker);
    let mut i: usize = n - width;
    while i < n
        invariant
            n == cv@.len(),
            width < n,
            n - width <= i <= n,
            out@ =~= cv@.take(width as int) + marker_view + cv@.subrange(n - width, i as int),
        decreases n - i,
    {
        out.push(cv[i]);
        i = i + 1;
    }
    assert(out@ =~= spec_truncate(line@, width as int));
    string_from_chars(&out)
}

/// Truncation saves space: the line truncator never lengthens a line, and
/// whenever it replaces the middle with a marker the result is strictly
/// shorter than the input line.
pub proof fn lemma_truncate_saves_space(line: Seq<char>, width: int)
    requires
        width >= 0,
    ensures
        spec_truncate(line, width).len() <= line.len(),
        spec_truncate(line, width) != line ==> spec_truncate(line, width).len() < line.len(),
{
    if !(width == 0 || line.len() <= 2 * width) {
        let removed = line.len() - 2 * width;
        let marker = spec_char_marker(removed);
        if marker.len() < removed {
            assert(line.take(width).len() == width);
            assert(line.skip(line.len() - width).len() == width);
            assert(spec_truncate(line, width).len() == width + marker.len() + width);
        }
    }
}

} // verus!
