use vstd::prelude::*;
use vstd::slice::slice_subrange;
use crate::structs::{HitObject, HitObjectType};

verus! {

pub const SPACE: u8 = 32;
pub const MINUS: u8 = 45;
pub const COMMA: u8 = 44;
pub const COLON: u8 = 58;
pub const DIGIT_ZERO: u8 = 48;
pub const DIGIT_NINE: u8 = 57;

/// `b` is an ASCII decimal digit.
pub open spec fn is_digit(b: u8) -> bool {
    DIGIT_ZERO <= b && b <= DIGIT_NINE
}

/// The first index at or after `i` whose byte is not an ASCII space, or the
/// length of `s` when only spaces follow.
pub open spec fn skip_spaces(s: Seq<u8>, i: int) -> int
    decreases s.len() - i,
{
    if 0 <= i < s.len() && s[i] == SPACE {
        skip_spaces(s, i + 1)
    } else {
        i
    }
}

/// The first index at or after `i` whose byte is not a digit, or the length
/// of `s` when only digits follow.
pub open spec fn digits_end(s: Seq<u8>, i: int) -> int
    decreases s.len() - i,
{
    if 0 <= i < s.len() && is_digit(s[i]) {
        digits_end(s, i + 1)
    } else {
        i
    }
}

/// The natural number that a string of digits denotes in base ten; the empty
/// string denotes zero.
pub open spec fn digits_value(d: Seq<u8>) -> int
    decreases d.len(),
{
    if d.len() == 0 {
        0
    } else {
        digits_value(d.drop_last()) * 10 + (d.last() - DIGIT_ZERO)
    }
}

/// The signed 32-bit integer congruent to `v` modulo 2^32.
pub open spec fn wrap_i32(v: int) -> i32 {
    let m = v % 0x1_0000_0000;
    if m > i32::MAX {
        (m - 0x1_0000_0000) as i32
    } else {
        m as i32
    }
}

/// What the integer scanner reads from `s`: leading spaces are skipped, one
/// `-` is taken as a sign, the run of digits that follows is read in base
/// ten, and the signed value is reduced to 32 bits. Whatever follows the
/// digits is ignored; no digits at all read as zero.
pub open spec fn scan_int(s: Seq<u8>) -> i32 {
    let i = skip_spaces(s, 0);
    let negative = i < s.len() && s[i] == MINUS;
    let lo = if negative { i + 1 } else { i };
    let hi = digits_end(s, lo);
    let magnitude = digits_value(s.subrange(lo, hi));
    wrap_i32(if negative { -magnitude } else { magnitude })
}

/// Integers that differ by a multiple of 2^32 wrap to the same value.
proof fn lemma_wrap_congruent(a: int, b: int, k: int)
    requires
        a == b + k * 0x1_0000_0000,
    ensures
        wrap_i32(a) == wrap_i32(b),
{
    vstd::arithmetic::div_mod::lemma_mod_multiples_vanish(k, b, 0x1_0000_0000);
}

/// How many times 2^32 lies between `v` and its wrapped value.
spec fn wrap_turns(v: int) -> int {
    (v - wrap_i32(v)) / 0x1_0000_0000
}

proof fn lemma_wrap_turns(v: int)
    ensures
        v == wrap_i32(v) + wrap_turns(v) * 0x1_0000_0000,
{
}

/// Folding further digits into a wrapped accumulator gives the wrapped
/// value of the longer digit string.
proof fn lemma_wrap_fold(v: int, scale: int, add: int)
    ensures
        wrap_i32(wrap_i32(v) * scale + add) == wrap_i32(v * scale + add),
{
    let w = wrap_i32(v) as int;
    let turns = wrap_turns(v);
    lemma_wrap_turns(v);
    assert(v * scale + add == w * scale + add + (turns * scale) * 0x1_0000_0000)
        by (nonlinear_arith)
        requires
            v == w + turns * 0x1_0000_0000,
    ;
    lemma_wrap_congruent(v * scale + add, w * scale + add, turns * scale);
}

/// Computes `acc * scale + add` reduced to 32 bits.
fn fold_digits(acc: i32, scale: i32, add: i32) -> (r: i32)
    requires
        0 <= add <= 9999,
    ensures
        r == wrap_i32(acc * scale + add),
{
    let scaled = acc.wrapping_mul(scale);
    proof {
        assert(scaled == wrap_i32(acc * scale));
        lemma_wrap_fold(acc * scale, 1, add as int);
        assert(wrap_i32(acc * scale) * 1 + add == scaled + add);
        assert((acc * scale) * 1 + add == acc * scale + add);
    }
    let r = scaled.wrapping_add(add);
    proof {
        assert(r == wrap_i32(scaled + add));
    }
    r
}

/// Four digits appended to a digit string multiply its value by ten
/// thousand and add their own.
proof fn lemma_digits_value_four(d: Seq<u8>)
    requires
        d.len() >= 4,
    ensures
        digits_value(d) == digits_value(d.take(d.len() - 4)) * 10000 + (d[d.len() - 4]
            - DIGIT_ZERO) * 1000 + (d[d.len() - 3] - DIGIT_ZERO) * 100 + (d[d.len() - 2]
            - DIGIT_ZERO) * 10 + (d[d.len() - 1] - DIGIT_ZERO),
{
    let d1 = d.drop_last();
    let d2 = d1.drop_last();
    let d3 = d2.drop_last();
    assert(d3.drop_last() =~= d.take(d.len() - 4));
    assert(digits_value(d) == digits_value(d1) * 10 + (d.last() - DIGIT_ZERO));
    assert(digits_value(d1) == digits_value(d2) * 10 + (d1.last() - DIGIT_ZERO));
    assert(digits_value(d2) == digits_value(d3) * 10 + (d2.last() - DIGIT_ZERO));
    assert(digits_value(d3) == digits_value(d3.drop_last()) * 10 + (d3.last() - DIGIT_ZERO));
}

/// Negating a wrapped value gives the wrapped value of the negation.
proof fn lemma_wrap_negate(v: int)
    ensures
        wrap_i32(0 - wrap_i32(v)) == wrap_i32(-v),
{
    lemma_wrap_turns(v);
    lemma_wrap_congruent(-v, 0 - wrap_i32(v), -wrap_turns(v));
}

fn byte_is_digit(b: u8) -> (r: bool)
    ensures
        r == is_digit(b),
{
    DIGIT_ZERO <= b && b <= DIGIT_NINE
}

/// Scans a signed decimal integer from the front of `s`: spaces, an optional
/// `-`, then digits, four at a time while four are at hand. Overflow wraps.
pub fn parse_int_fast(s: &[u8]) -> (r: i32)
    ensures
        r == scan_int(s@),
{
    let n: usize = s.len();
    let mut i: usize = 0;
    while i < n && s[i] == SPACE
        invariant
            n == s@.len(),
            0 <= i <= n,
            skip_spaces(s@, i as int) == skip_spaces(s@, 0),
        decreases n - i,
    {
        i += 1;
    }
    let mut negative = false;
    if i < n && s[i] == MINUS {
        negative = true;
        i += 1;
    }
    let ghost lo: int = i as int;
    let mut acc: i32 = 0;
    while n - i >= 4 && byte_is_digit(s[i]) && byte_is_digit(s[i + 1]) && byte_is_digit(s[i + 2])
        && byte_is_digit(s[i + 3])
        invariant
            n == s@.len(),
            0 <= lo <= i <= n,
            digits_end(s@, i as int) == digits_end(s@, lo),
            acc == wrap_i32(digits_value(s@.subrange(lo, i as int))),
        decreases n - i,
    {
        let d0: i32 = (s[i] - DIGIT_ZERO) as i32;
        let d1: i32 = (s[i + 1] - DIGIT_ZERO) as i32;
        let d2: i32 = (s[i + 2] - DIGIT_ZERO) as i32;
        let d3: i32 = (s[i + 3] - DIGIT_ZERO) as i32;
        let chunk: i32 = d0 * 1000 + d1 * 100 + d2 * 10 + d3;
        proof {
            let before = s@.subrange(lo, i as int);
            let after = s@.subrange(lo, i as int + 4);
            assert(after.take(after.len() - 4) =~= before);
            lemma_digits_value_four(after);
            assert(digits_value(after) == digits_value(before) * 10000 + chunk);
            lemma_wrap_fold(digits_value(before), 10000, chunk as int);
            assert(digits_end(s@, i as int) == digits_end(s@, i as int + 1));
            assert(digits_end(s@, i as int + 1) == digits_end(s@, i as int + 2));
            assert(digits_end(s@, i as int + 2) == digits_end(s@, i as int + 3));
            assert(digits_end(s@, i as int + 3) == digits_end(s@, i as int + 4));
        }
        acc = fold_digits(acc, 10000, chunk);
        i += 4;
    }
    while i < n && byte_is_digit(s[i])
        invariant
            n == s@.len(),
            0 <= lo <= i <= n,
            digits_end(s@, i as int) == digits_end(s@, lo),
            acc == wrap_i32(digits_value(s@.subrange(lo, i as int))),
        decreases n - i,
    {
        let d: i32 = (s[i] - DIGIT_ZERO) as i32;
        proof {
            let before = s@.subrange(lo, i as int);
            let after = s@.subrange(lo, i as int + 1);
            assert(after.drop_last() =~= before);
            assert(digits_value(after) == digits_value(before) * 10 + d);
            lemma_wrap_fold(digits_value(before), 10, d as int);
        }
        acc = fold_digits(acc, 10, d);
        i += 1;
    }
    if negative {
        proof {
            lemma_wrap_negate(digits_value(s@.subrange(lo, i as int)));
        }
        0i32.wrapping_sub(acc)
    } else {
        acc
    }
}

/// The first index at or after `i` whose byte ends a field, or the length of
/// `s` when none follows. A comma always ends a field; a colon ends it only
/// where `colon_stops` is set.
pub open spec fn field_end(s: Seq<u8>, i: int, colon_stops: bool) -> int
    decreases s.len() - i,
{
    if 0 <= i < s.len() && s[i] != COMMA && !(colon_stops && s[i] == COLON) {
        field_end(s, i + 1, colon_stops)
    } else {
        i
    }
}

/// Where the next field or line begins when the last one ended at `end`:
/// behind the delimiter, or at the end of the input when it is exhausted.
pub open spec fn after_delimiter(s: Seq<u8>, end: int) -> int {
    if end < s.len() {
        end + 1
    } else {
        s.len() as int
    }
}

/// Where the `k`-th comma-separated field of `s` begins (counted from zero).
/// Fields beyond the last one begin at the end of the line and are empty.
pub open spec fn field_start(s: Seq<u8>, k: nat) -> int
    decreases k,
{
    if k == 0 {
        0
    } else {
        after_delimiter(s, field_end(s, field_start(s, (k - 1) as nat), false))
    }
}

/// The bytes of the `k`-th comma-separated field of `s`; with `colon_stops`
/// the field also ends at its first colon.
pub open spec fn field(s: Seq<u8>, k: nat, colon_stops: bool) -> Seq<u8> {
    s.subrange(field_start(s, k), field_end(s, field_start(s, k), colon_stops))
}

/// The low eight bits of `v`.
pub open spec fn low_byte(v: i32) -> u8 {
    (v as int % 256) as u8
}

/// Bit 7 of the type flags marks a hold.
pub open spec fn has_hold_bit(flags: u8) -> bool {
    flags & 0x80 != 0
}

/// The hit object that one line denotes under `mode`. Fields 0 to 2 are x, y
/// and time; field 3 holds the type flags. The object is a hold exactly when
/// the mode is 3 and the hold bit is set; its release time is then field 5,
/// read up to the first colon. Missing fields read as zero.
pub open spec fn decode_line(s: Seq<u8>, mode: u8) -> HitObject {
    let hold = mode == 3 && has_hold_bit(low_byte(scan_int(field(s, 3, false))));
    HitObject {
        x: scan_int(field(s, 0, false)),
        y: scan_int(field(s, 1, false)),
        time: scan_int(field(s, 2, false)),
        object_type: if hold { HitObjectType::Hold } else { HitObjectType::Circle },
        end_time: if hold { Some(scan_int(field(s, 5, true))) } else { None },
    }
}

/// Finds the end of the field that begins at `start`.
fn find_field_end(line: &[u8], start: usize, colon_stops: bool) -> (end: usize)
    requires
        start <= line@.len(),
    ensures
        end == field_end(line@, start as int, colon_stops),
        start <= end <= line@.len(),
{
    let n: usize = line.len();
    let mut end: usize = start;
    while end < n && line[end] != COMMA && !(colon_stops && line[end] == COLON)
        invariant
            n == line@.len(),
            start <= end <= n,
            field_end(line@, end as int, colon_stops) == field_end(line@, start as int, colon_stops),
        decreases n - end,
    {
        end += 1;
    }
    end
}

/// Steps over the delimiter at `end`, if there is one.
fn step_over_delimiter(line: &[u8], end: usize) -> (start: usize)
    requires
        end <= line@.len(),
    ensures
        start == after_delimiter(line@, end as int),
        end <= start <= line@.len(),
{
    if end < line.len() {
        end + 1
    } else {
        end
    }
}

/// Reads the low eight bits of `v`.
pub(crate) fn truncate_to_byte(v: i32) -> (b: u8)
    ensures
        b == low_byte(v),
{
    let shifted: i64 = v as i64 + 0x8000_0000i64;
    (shifted % 256) as u8
}

/// Decodes one hit-object line under the given mode.
pub fn parse_hit_object_line(line: &[u8], mode: u8) -> (obj: HitObject)
    ensures
        obj == decode_line(line@, mode),
        obj.wf(),
        mode != 3 ==> obj.object_type == HitObjectType::Circle,
{
    proof {
        reveal_with_fuel(field_start, 6);
    }
    let end0 = find_field_end(line, 0, false);
    let x = parse_int_fast(slice_subrange(line, 0, end0));

    let start1 = step_over_delimiter(line, end0);
    let end1 = find_field_end(line, start1, false);
    let y = parse_int_fast(slice_subrange(line, start1, end1));

    let start2 = step_over_delimiter(line, end1);
    let end2 = find_field_end(line, start2, false);
    let time = parse_int_fast(slice_subrange(line, start2, end2));

    let start3 = step_over_delimiter(line, end2);
    let end3 = find_field_end(line, start3, false);
    let type_flags = truncate_to_byte(parse_int_fast(slice_subrange(line, start3, end3)));

    if mode == 3 && (type_flags & 0x80) != 0 {
        let start4 = step_over_delimiter(line, end3);
        let end4 = find_field_end(line, start4, false);
        let start5 = step_over_delimiter(line, end4);
        let end5 = find_field_end(line, start5, true);
        let end_time = parse_int_fast(slice_subrange(line, start5, end5));
        HitObject { x, y, time, object_type: HitObjectType::Hold, end_time: Some(end_time) }
    } else {
        HitObject { x, y, time, object_type: HitObjectType::Circle, end_time: None }
    }
}

} // verus!
