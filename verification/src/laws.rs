//! Laws of the decoder, stated over its model and proved once for all inputs.
use vstd::prelude::*;
use crate::helpers::{
    decode_line, digits_end, digits_value, is_digit, scan_int, skip_spaces, DIGIT_ZERO,
    MINUS,
};
use crate::service::{
    decode, emits, hit_objects_header, is_content_line, is_mode_line, is_section_header, lines_of,
    mode_value, run, start_state, step, ScanState,
};
use crate::structs::{all_wf, no_holds, HitObject, HitObjectType};

verus! {

/// The digits of `n` in base ten, most significant first, without leading
/// zeros; zero is the single digit `0`.
pub open spec fn decimal_digits(n: nat) -> Seq<u8>
    decreases n,
{
    if n < 10 {
        seq![(DIGIT_ZERO + n) as u8]
    } else {
        decimal_digits(n / 10).push((DIGIT_ZERO + n % 10) as u8)
    }
}

/// The decimal text of `n`: a `-` before the digits of a negative number.
pub open spec fn decimal_text(n: int) -> Seq<u8> {
    if n < 0 {
        seq![MINUS] + decimal_digits((-n) as nat)
    } else {
        decimal_digits(n as nat)
    }
}

proof fn lemma_decimal_digits(n: nat)
    ensures
        decimal_digits(n).len() >= 1,
        forall|i: int| 0 <= i < decimal_digits(n).len() ==> is_digit(#[trigger] decimal_digits(n)[i]),
        digits_value(decimal_digits(n)) == n,
    decreases n,
{
    let d = decimal_digits(n);
    if n < 10 {
        assert(d.drop_last() =~= Seq::<u8>::empty());
        assert(digits_value(d.drop_last()) == 0);
    } else {
        lemma_decimal_digits(n / 10);
        assert(d.drop_last() =~= decimal_digits(n / 10));
    }
}

/// A run of digits that begins at `i` and is followed by a byte that is not
/// a digit, or by nothing, ends where the run does.
proof fn lemma_digits_end_of_run(s: Seq<u8>, i: int, end: int)
    requires
        0 <= i <= end <= s.len(),
        forall|k: int| i <= k < end ==> is_digit(#[trigger] s[k]),
        end == s.len() || !is_digit(s[end]),
    ensures
        digits_end(s, i) == end,
    decreases end - i,
{
    if i < end {
        lemma_digits_end_of_run(s, i + 1, end);
    }
}

/// Scanning the decimal text of a 32-bit integer gives the integer back,
/// whatever follows the text, as long as no further digit follows directly.
pub proof fn lemma_scan_reads_decimal_text(n: i32, rest: Seq<u8>)
    requires
        rest.len() == 0 || !is_digit(rest[0]),
    ensures
        scan_int(decimal_text(n as int) + rest) == n,
{
    let magnitude: nat = if n < 0 { (-n) as nat } else { n as nat };
    let d = decimal_digits(magnitude);
    lemma_decimal_digits(magnitude);
    let s = decimal_text(n as int) + rest;
    if n < 0 {
        assert(s[0] == MINUS);
        assert(skip_spaces(s, 0) == 0);
        assert forall|k: int| 1 <= k < 1 + d.len() implies is_digit(#[trigger] s[k]) by {
            assert(s[k] == d[k - 1]);
        }
        lemma_digits_end_of_run(s, 1, 1 + d.len() as int);
        assert(s.subrange(1, 1 + d.len() as int) =~= d);
    } else {
        assert(s[0] == d[0]);
        assert(is_digit(d[0]));
        assert(skip_spaces(s, 0) == 0);
        assert forall|k: int| 0 <= k < d.len() implies is_digit(#[trigger] s[k]) by {
            assert(s[k] == d[k]);
        }
        lemma_digits_end_of_run(s, 0, d.len() as int);
        assert(s.subrange(0, d.len() as int) =~= d);
    }
}

/// Decoding a sequence of lines in two parts gives the same state as
/// decoding it whole.
pub proof fn lemma_run_append(st: ScanState, a: Seq<Seq<u8>>, b: Seq<Seq<u8>>)
    ensures
        run(st, a + b) == run(run(st, a), b),
    decreases a.len(),
{
    if a.len() == 0 {
        assert(a + b =~= b);
    } else {
        assert((a + b)[0] == a[0]);
        assert((a + b).skip(1) =~= a.skip(1) + b);
        lemma_run_append(step(st, a[0]), a.skip(1), b);
    }
}

/// The state before line `n` and the line itself give the state after it.
pub proof fn lemma_run_next(st: ScanState, lines: Seq<Seq<u8>>, n: int)
    requires
        0 <= n < lines.len(),
    ensures
        run(st, lines.take(n + 1)) == step(run(st, lines.take(n)), lines[n]),
{
    let one = seq![lines[n]];
    assert(lines.take(n + 1) =~= lines.take(n) + one);
    lemma_run_append(st, lines.take(n), one);
    let mid = run(st, lines.take(n));
    assert(one.skip(1) =~= Seq::<Seq<u8>>::empty());
    assert(run(mid, one) == run(step(mid, one[0]), one.skip(1)));
}

/// Decoding never changes the objects already held, and every object it
/// adds has a release time exactly when it is a hold.
pub proof fn lemma_run_keeps_well_formed(st: ScanState, lines: Seq<Seq<u8>>)
    ensures
        st.objects.len() <= run(st, lines).objects.len(),
        run(st, lines).objects.take(st.objects.len() as int) == st.objects,
        forall|i: int|
            st.objects.len() <= i < run(st, lines).objects.len() ==> (#[trigger] run(
                st,
                lines,
            ).objects[i]).wf(),
        all_wf(st.objects) ==> all_wf(run(st, lines).objects),
    decreases lines.len(),
{
    if lines.len() == 0 {
        assert(st.objects.take(st.objects.len() as int) =~= st.objects);
    } else {
        let next = step(st, lines[0]);
        lemma_run_keeps_well_formed(next, lines.skip(1));
        let end = run(st, lines);
        assert(end.objects.take(st.objects.len() as int) =~= st.objects) by {
            let kept = end.objects.take(next.objects.len() as int);
            assert(kept == next.objects);
            assert forall|i: int| 0 <= i < st.objects.len() implies end.objects[i]
                == st.objects[i] by {
                assert(kept[i] == end.objects[i]);
            }
        }
        assert forall|i: int| st.objects.len() <= i < end.objects.len() implies (
        #[trigger] end.objects[i]).wf() by {
            if i < next.objects.len() {
                let kept = end.objects.take(next.objects.len() as int);
                assert(kept[i] == end.objects[i]);
            }
        }
        if all_wf(st.objects) {
            assert forall|i: int| 0 <= i < end.objects.len() implies (#[trigger] end.objects[i]).wf() by {
                if i < st.objects.len() {
                    let kept = end.objects.take(st.objects.len() as int);
                    assert(kept[i] == end.objects[i]);
                }
            }
        }
    }
}

/// What links the mode to the holds while a decode runs: outside mode 3
/// there is no hold, and mode 3 is a mode that was captured.
pub open spec fn holds_need_mode_three(st: ScanState) -> bool {
    &&& st.mode != 3 ==> no_holds(st.objects)
    &&& st.mode == 3 ==> st.mode_found
}

/// The link between the mode and the holds survives every line.
pub proof fn lemma_run_keeps_mode_link(st: ScanState, lines: Seq<Seq<u8>>)
    requires
        holds_need_mode_three(st),
    ensures
        holds_need_mode_three(run(st, lines)),
    decreases lines.len(),
{
    if lines.len() > 0 {
        let next = step(st, lines[0]);
        assert(holds_need_mode_three(next)) by {
            if emits(st, lines[0]) && st.mode != 3 {
                assert forall|i: int| 0 <= i < next.objects.len() implies (
                #[trigger] next.objects[i]).object_type == HitObjectType::Circle by {
                    if i < st.objects.len() {
                        assert(next.objects[i] == st.objects[i]);
                    }
                }
            }
        }
        lemma_run_keeps_mode_link(next, lines.skip(1));
    }
}

/// A decode that begins in a mode other than 3 and without holds, as a fresh
/// parser does, ends without holds unless it ends in mode 3.
pub proof fn lemma_holds_only_in_mode_three(mode: u8, objects: Seq<HitObject>, content: Seq<u8>)
    requires
        mode != 3,
        no_holds(objects),
    ensures
        decode(mode, objects, content).mode != 3 ==> no_holds(
            decode(mode, objects, content).objects,
        ),
{
    lemma_run_keeps_mode_link(start_state(mode, objects), lines_of(content));
}

/// The indices of the lines that are decoded as hit objects, in the order in
/// which their objects are appended.
pub open spec fn emitting_lines(st: ScanState, lines: Seq<Seq<u8>>) -> Seq<int>
    decreases lines.len(),
{
    if lines.len() == 0 {
        Seq::empty()
    } else {
        let n = lines.len() - 1;
        let before = emitting_lines(st, lines.take(n));
        if emits(run(st, lines.take(n)), lines[n]) {
            before.push(n)
        } else {
            before
        }
    }
}

/// Hit objects follow the input: the objects that a decode appends are, one
/// for one and in order, the decodings of the lines at strictly increasing
/// indices, each under the mode in force when its line was reached.
pub proof fn lemma_objects_follow_lines(st: ScanState, lines: Seq<Seq<u8>>)
    ensures
        run(st, lines).objects.len() == st.objects.len() + emitting_lines(st, lines).len(),
        forall|k: int| 0 <= k < st.objects.len() ==> run(st, lines).objects[k] == st.objects[k],
        forall|k: int|
            0 <= k < emitting_lines(st, lines).len() ==> 0 <= #[trigger] emitting_lines(
                st,
                lines,
            )[k] < lines.len(),
        forall|a: int, b: int|
            0 <= a < b < emitting_lines(st, lines).len() ==> emitting_lines(st, lines)[a]
                < emitting_lines(st, lines)[b],
        forall|k: int|
            0 <= k < emitting_lines(st, lines).len() ==> #[trigger] run(
                st,
                lines,
            ).objects[st.objects.len() + k] == decode_line(
                lines[emitting_lines(st, lines)[k]],
                run(st, lines.take(emitting_lines(st, lines)[k])).mode,
            ),
    decreases lines.len(),
{
    if lines.len() > 0 {
        let n = lines.len() - 1;
        let head = lines.take(n);
        lemma_objects_follow_lines(st, head);
        lemma_run_next(st, lines, n);
        assert(lines.take(n + 1) =~= lines);
        let before = emitting_lines(st, head);
        let src = emitting_lines(st, lines);
        let mid = run(st, head);
        let end = run(st, lines);
        assert forall|k: int| 0 <= k < src.len() implies #[trigger] end.objects[st.objects.len()
            + k] == decode_line(lines[src[k]], run(st, lines.take(src[k])).mode) by {
            if k < before.len() {
                assert(head.take(before[k]) =~= lines.take(before[k]));
                assert(end.objects[st.objects.len() + k] == mid.objects[st.objects.len() + k]);
            }
        }
    }
}

/// Line `n` is decoded as a hit object exactly when its index is among the
/// emitting lines.
pub proof fn lemma_emitting_lines_contains(st: ScanState, lines: Seq<Seq<u8>>, n: int)
    requires
        0 <= n < lines.len(),
    ensures
        emitting_lines(st, lines).contains(n) == emits(run(st, lines.take(n)), lines[n]),
    decreases lines.len(),
{
    let last = lines.len() - 1;
    let head = lines.take(last);
    let before = emitting_lines(st, head);
    let src = emitting_lines(st, lines);
    lemma_objects_follow_lines(st, head);
    if n < last {
        lemma_emitting_lines_contains(st, head, n);
        assert(head.take(n) =~= lines.take(n));
        if before.contains(n) {
            let k = choose|k: int| 0 <= k < before.len() && before[k] == n;
            assert(src[k] == n);
        }
        if src.contains(n) {
            let k = choose|k: int| 0 <= k < src.len() && src[k] == n;
            assert(before[k] == n);
        }
    } else {
        if emits(run(st, head), lines[n]) {
            assert(src[before.len() as int] == n);
        } else {
            if src.contains(n) {
                let k = choose|k: int| 0 <= k < src.len() && src[k] == n;
                assert(before[k] < head.len());
            }
        }
    }
}

/// Section re-entry: a content line is decoded as a hit object whenever the
/// nearest section header before it is `[HitObjects]`, whatever sections
/// came earlier, and its object stands among those that the decode appends.
pub proof fn lemma_section_reentry(st: ScanState, lines: Seq<Seq<u8>>, header: int, n: int)
    requires
        0 <= header < n < lines.len(),
        lines[header] == hit_objects_header(),
        forall|m: int| header < m < n ==> !is_section_header(#[trigger] lines[m]),
        is_content_line(lines[n]),
    ensures
        run(st, lines.take(n)).in_hit_objects,
        exists|k: int|
            0 <= k < emitting_lines(st, lines).len() && #[trigger] emitting_lines(st, lines)[k] == n
                && run(st, lines).objects[st.objects.len() + k] == decode_line(
                lines[n],
                run(st, lines.take(n)).mode,
            ),
{
    lemma_in_section_since(st, lines, header, n);
    lemma_emitting_lines_contains(st, lines, n);
    lemma_objects_follow_lines(st, lines);
    let src = emitting_lines(st, lines);
    let k = choose|k: int| 0 <= k < src.len() && src[k] == n;
    assert(run(st, lines).objects[st.objects.len() + k] == decode_line(
        lines[src[k]],
        run(st, lines.take(src[k])).mode,
    ));
}

proof fn lemma_in_section_since(st: ScanState, lines: Seq<Seq<u8>>, header: int, n: int)
    requires
        0 <= header < n <= lines.len(),
        lines[header] == hit_objects_header(),
        forall|m: int| header < m < n ==> !is_section_header(#[trigger] lines[m]),
    ensures
        run(st, lines.take(n)).in_hit_objects,
    decreases n - header,
{
    lemma_run_next(st, lines, n - 1);
    if n - 1 == header {
        let h = hit_objects_header();
        assert(h.len() == 12 && h[0] == 91 && h[11] == 93);
        assert(is_section_header(h));
    } else {
        lemma_in_section_since(st, lines, header, n - 1);
    }
}

/// Line `n` begins with `Mode:` and is reached outside the hit-objects
/// section.
pub open spec fn is_preamble_mode_line(st: ScanState, lines: Seq<Seq<u8>>, n: int) -> bool {
    &&& is_content_line(lines[n])
    &&& is_mode_line(lines[n])
    &&& !run(st, lines.take(n)).in_hit_objects
}

proof fn lemma_mode_untouched_before(st: ScanState, lines: Seq<Seq<u8>>, n: int)
    requires
        0 <= n <= lines.len(),
        !st.mode_found,
        forall|m: int| 0 <= m < n ==> !is_preamble_mode_line(st, lines, m),
    ensures
        !run(st, lines.take(n)).mode_found,
        run(st, lines.take(n)).mode == st.mode,
    decreases n,
{
    if n == 0 {
        assert(lines.take(0) =~= Seq::<Seq<u8>>::empty());
    } else {
        lemma_mode_untouched_before(st, lines, n - 1);
        lemma_run_next(st, lines, n - 1);
        assert(!is_preamble_mode_line(st, lines, n - 1));
    }
}

proof fn lemma_mode_fixed_once_found(st: ScanState, lines: Seq<Seq<u8>>)
    requires
        st.mode_found,
    ensures
        run(st, lines).mode_found,
        run(st, lines).mode == st.mode,
    decreases lines.len(),
{
    if lines.len() > 0 {
        lemma_mode_fixed_once_found(step(st, lines[0]), lines.skip(1));
    }
}

/// Mode capture: the first `Mode:` line reached outside the hit-objects
/// section gives the mode, and no later line changes it.
pub proof fn lemma_first_mode_line_wins(st: ScanState, lines: Seq<Seq<u8>>, n: int)
    requires
        !st.mode_found,
        0 <= n < lines.len(),
        is_preamble_mode_line(st, lines, n),
        forall|m: int| 0 <= m < n ==> !is_preamble_mode_line(st, lines, m),
    ensures
        run(st, lines).mode == mode_value(lines[n]),
{
    lemma_mode_untouched_before(st, lines, n);
    lemma_run_next(st, lines, n);
    assert(lines =~= lines.take(n + 1) + lines.skip(n + 1));
    lemma_run_append(st, lines.take(n + 1), lines.skip(n + 1));
    lemma_mode_fixed_once_found(run(st, lines.take(n + 1)), lines.skip(n + 1));
}

/// Without a `Mode:` line outside the hit-objects section the mode stays as
/// it was.
pub proof fn lemma_mode_kept_without_mode_line(st: ScanState, lines: Seq<Seq<u8>>)
    requires
        !st.mode_found,
        forall|m: int| 0 <= m < lines.len() ==> !is_preamble_mode_line(st, lines, m),
    ensures
        run(st, lines).mode == st.mode,
{
    lemma_mode_untouched_before(st, lines, lines.len() as int);
    assert(lines.take(lines.len() as int) =~= lines);
}

} // verus!
