use vstd::prelude::*;
use vstd::slice::slice_subrange;
use crate::helpers::{
    after_delimiter, decode_line, low_byte, parse_hit_object_line, parse_int_fast, scan_int,
    truncate_to_byte,
};
use crate::laws::{lemma_holds_only_in_mode_three, lemma_run_keeps_well_formed};
use crate::structs::{no_holds, HitObject, HitObjectType, OsuParser};

verus! {

pub const LINE_FEED: u8 = 10;
pub const CARRIAGE_RETURN: u8 = 13;
pub const SLASH: u8 = 47;
pub const OPEN_BRACKET: u8 = 91;
pub const CLOSE_BRACKET: u8 = 93;

/// The first index at or after `i` that holds a line feed, or the length of
/// `s` when none follows.
pub open spec fn line_end(s: Seq<u8>, i: int) -> int
    decreases s.len() - i,
{
    if 0 <= i < s.len() && s[i] != LINE_FEED {
        line_end(s, i + 1)
    } else {
        i
    }
}

/// The line that begins at `start`, without its line ending. A line ends at
/// a line feed or at the end of the input; a carriage return directly before
/// the line feed belongs to the line ending.
pub open spec fn line_at(s: Seq<u8>, start: int) -> Seq<u8> {
    let end = line_end(s, start);
    if end < s.len() && start < end && s[end - 1] == CARRIAGE_RETURN {
        s.subrange(start, end - 1)
    } else {
        s.subrange(start, end)
    }
}

/// The lines of `s` from index `start` on, in order. Nothing follows a final
/// line feed: the input `"a\n"` has one line.
pub open spec fn lines_from(s: Seq<u8>, start: int) -> Seq<Seq<u8>>
    decreases s.len() - start,
    via lines_from_terminates
{
    if 0 <= start < s.len() {
        seq![line_at(s, start)] + lines_from(s, after_delimiter(s, line_end(s, start)))
    } else {
        Seq::empty()
    }
}

#[via_fn]
proof fn lines_from_terminates(s: Seq<u8>, start: int) {
    if 0 <= start < s.len() {
        lemma_line_end_bounds(s, start);
    }
}

pub proof fn lemma_line_end_bounds(s: Seq<u8>, i: int)
    requires
        0 <= i <= s.len(),
    ensures
        i <= line_end(s, i) <= s.len(),
    decreases s.len() - i,
{
    if i < s.len() && s[i] != LINE_FEED {
        lemma_line_end_bounds(s, i + 1);
    }
}

/// All lines of `s`.
pub open spec fn lines_of(s: Seq<u8>) -> Seq<Seq<u8>> {
    lines_from(s, 0)
}

/// The bytes of `[HitObjects]`.
pub open spec fn hit_objects_header() -> Seq<u8> {
    seq![91u8, 72u8, 105u8, 116u8, 79u8, 98u8, 106u8, 101u8, 99u8, 116u8, 115u8, 93u8]
}

/// The bytes of `Mode:`.
pub open spec fn mode_key() -> Seq<u8> {
    seq![77u8, 111u8, 100u8, 101u8, 58u8]
}

/// Empty lines and lines that begin with `/` are passed over.
pub open spec fn is_ignored(line: Seq<u8>) -> bool {
    line.len() == 0 || line[0] == SLASH
}

/// A section header is a line in brackets.
pub open spec fn is_section_header(line: Seq<u8>) -> bool {
    line.len() >= 2 && line[0] == OPEN_BRACKET && line.last() == CLOSE_BRACKET
}

/// The line begins with `Mode:`.
pub open spec fn is_mode_line(line: Seq<u8>) -> bool {
    line.len() >= 5 && line.subrange(0, 5) == mode_key()
}

/// The mode that a `Mode:` line gives: the integer behind the key, reduced
/// to eight bits.
pub open spec fn mode_value(line: Seq<u8>) -> u8 {
    low_byte(scan_int(line.subrange(5, line.len() as int)))
}

/// A line that is neither ignored nor a section header.
pub open spec fn is_content_line(line: Seq<u8>) -> bool {
    !is_ignored(line) && !is_section_header(line)
}

/// The decoder's state between two lines.
pub struct ScanState {
    /// The last section header seen was `[HitObjects]`.
    pub in_hit_objects: bool,
    /// A `Mode:` line has been honoured.
    pub mode_found: bool,
    pub mode: u8,
    pub objects: Seq<HitObject>,
}

/// The state in which a decode begins: outside the hit-objects section, no
/// mode captured yet, on top of the mode and objects already held.
pub open spec fn start_state(mode: u8, objects: Seq<HitObject>) -> ScanState {
    ScanState { in_hit_objects: false, mode_found: false, mode, objects }
}

/// The line is decoded as a hit object in state `st`.
pub open spec fn emits(st: ScanState, line: Seq<u8>) -> bool {
    is_content_line(line) && st.in_hit_objects
}

/// The line is honoured as the mode line in state `st`.
pub open spec fn captures_mode(st: ScanState, line: Seq<u8>) -> bool {
    is_content_line(line) && !st.in_hit_objects && !st.mode_found && is_mode_line(line)
}

/// The state after one more line.
pub open spec fn step(st: ScanState, line: Seq<u8>) -> ScanState {
    if is_ignored(line) {
        st
    } else if is_section_header(line) {
        ScanState { in_hit_objects: line == hit_objects_header(), ..st }
    } else if st.in_hit_objects {
        ScanState { objects: st.objects.push(decode_line(line, st.mode)), ..st }
    } else if !st.mode_found && is_mode_line(line) {
        ScanState { mode: mode_value(line), mode_found: true, ..st }
    } else {
        st
    }
}

/// The state after all of `lines`, taken in order.
pub open spec fn run(st: ScanState, lines: Seq<Seq<u8>>) -> ScanState
    decreases lines.len(),
{
    if lines.len() == 0 {
        st
    } else {
        run(step(st, lines[0]), lines.skip(1))
    }
}

/// The state in which decoding `content` ends when it begins with the given
/// mode and objects.
pub open spec fn decode(mode: u8, objects: Seq<HitObject>, content: Seq<u8>) -> ScanState {
    run(start_state(mode, objects), lines_of(content))
}

/// The test "is of kind `kind`", as a value.
pub open spec fn of_kind(kind: HitObjectType) -> spec_fn(HitObject) -> bool {
    |obj: HitObject| obj.object_type == kind
}

/// The test "lies in the closed time range from `start_time` to `end_time`",
/// as a value.
pub open spec fn in_time_range(start_time: i32, end_time: i32) -> spec_fn(HitObject) -> bool {
    |obj: HitObject| start_time <= obj.time && obj.time <= end_time
}

/// The test "is at time `time`", as a value.
pub open spec fn at_time(time: i32) -> spec_fn(HitObject) -> bool {
    |obj: HitObject| obj.time == time
}

/// The first `limit` elements of `objs`, or all of them where there are
/// fewer.
pub open spec fn first_up_to(objs: Seq<HitObject>, limit: int) -> Seq<HitObject> {
    if limit < objs.len() {
        objs.take(limit)
    } else {
        objs
    }
}

/// The objects that a sequence of references points to.
pub open spec fn values_of(refs: Seq<&HitObject>) -> Seq<HitObject> {
    refs.map_values(|obj: &HitObject| *obj)
}

/// Times never decrease along `objs`.
pub open spec fn ordered_by_time(objs: Seq<HitObject>) -> bool {
    forall|i: int, j: int| 0 <= i < j < objs.len() ==> objs[i].time <= objs[j].time
}

/// Filtering a prefix that is one element longer either appends that
/// element or changes nothing.
pub proof fn lemma_filter_next(objs: Seq<HitObject>, i: int, keep: spec_fn(HitObject) -> bool)
    requires
        0 <= i < objs.len(),
    ensures
        objs.take(i + 1).filter(keep) == if keep(objs[i]) {
            objs.take(i).filter(keep).push(objs[i])
        } else {
            objs.take(i).filter(keep)
        },
{
    reveal(Seq::filter);
    assert(objs.take(i + 1).drop_last() =~= objs.take(i));
}

/// Filtering a sequence that is one element longer either appends that
/// element or changes nothing.
proof fn lemma_filter_push(objs: Seq<HitObject>, obj: HitObject, keep: spec_fn(HitObject) -> bool)
    ensures
        objs.push(obj).filter(keep) == if keep(obj) {
            objs.filter(keep).push(obj)
        } else {
            objs.filter(keep)
        },
{
    reveal(Seq::filter);
    assert(objs.push(obj).drop_last() =~= objs);
}

/// Where no element passes the test, nothing is left.
proof fn lemma_filter_none(objs: Seq<HitObject>, keep: spec_fn(HitObject) -> bool)
    requires
        forall|i: int| 0 <= i < objs.len() ==> !keep(#[trigger] objs[i]),
    ensures
        objs.filter(keep) == Seq::<HitObject>::empty(),
    decreases objs.len(),
{
    reveal(Seq::filter);
    if objs.len() > 0 {
        let rest = objs.drop_last();
        assert forall|i: int| 0 <= i < rest.len() implies !keep(#[trigger] rest[i]) by {
            assert(rest[i] == objs[i]);
        }
        lemma_filter_none(rest, keep);
    }
}

proof fn lemma_values_push(refs: Seq<&HitObject>, obj: &HitObject)
    ensures
        values_of(refs.push(obj)) == values_of(refs).push(*obj),
{
    assert(values_of(refs.push(obj)) =~= values_of(refs).push(*obj));
}

/// The start of the window of width `window` in which `time` lies: the
/// greatest multiple of `window` that is not above `time`.
pub open spec fn window_start(time: i32, window: i32) -> int {
    (time as int / window as int) * window as int
}

/// The test "lies in the window that starts at `key`", as a value.
pub open spec fn in_window(key: int, window: i32) -> spec_fn(HitObject) -> bool {
    |obj: HitObject| window_start(obj.time, window) == key
}

/// How many of `objs` lie in the window that starts at `key`.
pub open spec fn count_in_window(objs: Seq<HitObject>, window: i32, key: int) -> nat {
    objs.filter(in_window(key, window)).len()
}

/// The histogram has an entry for the window that starts at `key`.
pub open spec fn has_window(entries: Seq<(i32, usize)>, key: int) -> bool {
    exists|j: int| 0 <= j < entries.len() && (#[trigger] entries[j]).0 == key
}

/// Window starts strictly increase along the histogram.
pub open spec fn windows_ascend(entries: Seq<(i32, usize)>) -> bool {
    forall|i: int, j: int| 0 <= i < j < entries.len() ==> entries[i].0 < entries[j].0
}

/// `entries` is the histogram of `objs`: one entry for each window that
/// holds an object, in ascending order, with the number of objects in it.
pub open spec fn is_histogram_of(
    entries: Seq<(i32, usize)>,
    objs: Seq<HitObject>,
    window: i32,
) -> bool {
    &&& windows_ascend(entries)
    &&& forall|j: int|
        0 <= j < entries.len() ==> (#[trigger] entries[j]).1 >= 1 && entries[j].1
            == count_in_window(objs, window, entries[j].0 as int)
    &&& forall|key: int|
        (#[trigger] count_in_window(objs, window, key)) > 0 ==> has_window(entries, key)
}

/// Computes the start of the window in which `time` lies.
fn window_start_of(time: i32, window: i32) -> (key: i32)
    requires
        window > 0,
        window_start(time, window) >= i32::MIN,
    ensures
        key == window_start(time, window),
{
    let t: i64 = time as i64;
    let w: i64 = window as i64;
    if t >= 0 {
        proof {
            vstd::arithmetic::div_mod::lemma_fundamental_div_mod(t as int, w as int);
            vstd::arithmetic::div_mod::lemma_mod_bound(t as int, w as int);
            vstd::arithmetic::div_mod::lemma_div_pos_is_pos(t as int, w as int);
            assert((t as int / w as int) * w as int == w as int * (t as int / w as int))
                by (nonlinear_arith);
        }
        let q: i64 = t / w;
        (q * w) as i32
    } else {
        let above: i64 = w - 1 - t;
        let k: i64 = above / w;
        proof {
            vstd::arithmetic::div_mod::lemma_fundamental_div_mod(above as int, w as int);
            vstd::arithmetic::div_mod::lemma_mod_bound(above as int, w as int);
            let m = above as int % w as int;
            let r = w as int - 1 - m;
            assert(w as int * k as int == k as int * w as int) by (nonlinear_arith);
            assert((0 - k as int) * w as int == 0 - k as int * w as int) by (nonlinear_arith);
            assert(t as int == (0 - k as int) * w as int + r);
            vstd::arithmetic::div_mod::lemma_fundamental_div_mod_converse(
                t as int,
                w as int,
                0 - k as int,
                r,
            );
        }
        let q: i64 = 0 - k;
        (q * w) as i32
    }
}

/// The first slot of the histogram whose window does not start before
/// `key`.
fn find_window_slot(entries: &Vec<(i32, usize)>, key: i32) -> (p: usize)
    ensures
        p <= entries@.len(),
        forall|j: int| 0 <= j < p ==> (#[trigger] entries@[j]).0 < key,
        p < entries@.len() ==> entries@[p as int].0 >= key,
{
    let mut p: usize = 0;
    while p < entries.len() && entries[p].0 < key
        invariant
            p <= entries@.len(),
            forall|j: int| 0 <= j < p ==> (#[trigger] entries@[j]).0 < key,
        decreases entries@.len() - p,
    {
        p += 1;
    }
    p
}

/// Counting one more object raises the count of its own window by one and
/// leaves every other count as it was.
proof fn lemma_count_next(objs: Seq<HitObject>, i: int, window: i32, key: int)
    requires
        0 <= i < objs.len(),
    ensures
        count_in_window(objs.take(i + 1), window, key) == count_in_window(
            objs.take(i),
            window,
            key,
        ) + if window_start(objs[i].time, window) == key {
            1nat
        } else {
            0nat
        },
        count_in_window(objs.take(i), window, key) <= i,
{
    lemma_filter_next(objs, i, in_window(key, window));
    objs.take(i).lemma_filter_len(in_window(key, window));
}

/// Finds the line feed that ends the line beginning at `start`.
fn find_line_end(content: &[u8], start: usize) -> (end: usize)
    requires
        start <= content@.len(),
    ensures
        end == line_end(content@, start as int),
        start <= end <= content@.len(),
{
    let n: usize = content.len();
    let mut end: usize = start;
    while end < n && content[end] != LINE_FEED
        invariant
            n == content@.len(),
            start <= end <= n,
            line_end(content@, end as int) == line_end(content@, start as int),
        decreases n - end,
    {
        end += 1;
    }
    end
}

fn line_is_section_header(line: &[u8]) -> (r: bool)
    ensures
        r == is_section_header(line@),
{
    line.len() >= 2 && line[0] == OPEN_BRACKET && line[line.len() - 1] == CLOSE_BRACKET
}

fn line_is_hit_objects_header(line: &[u8]) -> (r: bool)
    ensures
        r == (line@ == hit_objects_header()),
{
    let r = line.len() == 12 && line[0] == 91 && line[1] == 72 && line[2] == 105 && line[3] == 116
        && line[4] == 79 && line[5] == 98 && line[6] == 106 && line[7] == 101 && line[8] == 99
        && line[9] == 116 && line[10] == 115 && line[11] == 93;
    proof {
        if r {
            assert(line@ =~= hit_objects_header());
        }
    }
    r
}

fn line_is_mode_line(line: &[u8]) -> (r: bool)
    ensures
        r == is_mode_line(line@),
{
    let r = line.len() >= 5 && line[0] == 77 && line[1] == 111 && line[2] == 100 && line[3] == 101
        && line[4] == 58;
    proof {
        if line@.len() >= 5 {
            let head = line@.subrange(0, 5);
            assert(head[0] == line@[0] && head[1] == line@[1] && head[2] == line@[2]
                && head[3] == line@[3] && head[4] == line@[4]);
            if r {
                assert(head =~= mode_key());
            }
        }
    }
    r
}

impl OsuParser {
    /// An empty parser: mode 0 and no hit objects.
    pub fn new() -> (p: OsuParser)
        ensures
            p.mode == 0,
            p.hit_objects@ == Seq::<HitObject>::empty(),
            p.wf(),
    {
        OsuParser { mode: 0, hit_objects: Vec::new() }
    }

    /// Decodes a whole beatmap held in memory: captures the mode from the
    /// first `Mode:` line outside the hit-objects section and appends one hit
    /// object for every content line inside it.
    pub fn parse_content(&mut self, content: &[u8])
        ensures
            final(self).mode == decode(old(self).mode, old(self).hit_objects@, content@).mode,
            final(self).hit_objects@ == decode(
                old(self).mode,
                old(self).hit_objects@,
                content@,
            ).objects,
            old(self).hit_objects@.len() <= final(self).hit_objects@.len(),
            final(self).hit_objects@.take(old(self).hit_objects@.len() as int) == old(
                self,
            ).hit_objects@,
            forall|i: int|
                old(self).hit_objects@.len() <= i < final(self).hit_objects@.len() ==> (
                #[trigger] final(self).hit_objects@[i]).wf(),
            old(self).wf() ==> final(self).wf(),
            old(self).mode != 3 && no_holds(old(self).hit_objects@) && final(self).mode != 3
                ==> no_holds(final(self).hit_objects@),
    {
        proof {
            lemma_run_keeps_well_formed(
                start_state(self.mode, self.hit_objects@),
                lines_of(content@),
            );
            if self.mode != 3 && no_holds(self.hit_objects@) {
                lemma_holds_only_in_mode_three(self.mode, self.hit_objects@, content@);
            }
        }
        let n: usize = content.len();
        let mut pos: usize = 0;
        let mut in_hit_objects = false;
        let mut mode_found = false;
        self.hit_objects.reserve(50000);
        while pos < n
            invariant
                n == content@.len(),
                pos <= n,
                run(
                    ScanState {
                        in_hit_objects,
                        mode_found,
                        mode: self.mode,
                        objects: self.hit_objects@,
                    },
                    lines_from(content@, pos as int),
                ) == decode(old(self).mode, old(self).hit_objects@, content@),
            decreases n - pos,
        {
            let end = find_line_end(content, pos);
            let stop = if end < n && pos < end && content[end - 1] == CARRIAGE_RETURN {
                end - 1
            } else {
                end
            };
            let line = slice_subrange(content, pos, stop);
            proof {
                let rest = lines_from(content@, after_delimiter(content@, end as int));
                let all = lines_from(content@, pos as int);
                assert(all == seq![line@] + rest);
                assert(all[0] == line@);
                assert(all.skip(1) =~= rest);
            }
            if line.len() == 0 || line[0] == SLASH {
            } else if line_is_section_header(line) {
                in_hit_objects = line_is_hit_objects_header(line);
            } else if in_hit_objects {
                let obj = parse_hit_object_line(line, self.mode);
                self.hit_objects.push(obj);
            } else if !mode_found && line_is_mode_line(line) {
                self.mode = truncate_to_byte(parse_int_fast(slice_subrange(line, 5, line.len())));
                mode_found = true;
            }
            pos = if end < n { end + 1 } else { n };
        }
    }

    /// The first `limit` objects of kind `kind` in input order, or all of
    /// them where there are fewer.
    fn first_of_kind(&self, kind: HitObjectType, limit: usize) -> (r: Vec<&HitObject>)
        ensures
            values_of(r@) == first_up_to(self.hit_objects@.filter(of_kind(kind)), limit as int),
    {
        let ghost keep = of_kind(kind);
        let n: usize = self.hit_objects.len();
        let mut out: Vec<&HitObject> = Vec::new();
        let mut i: usize = 0;
        proof {
            reveal(Seq::filter);
            assert(values_of(out@) =~= self.hit_objects@.take(0).filter(keep));
        }
        while i < n && out.len() < limit
            invariant
                n == self.hit_objects@.len(),
                i <= n,
                keep == of_kind(kind),
                out@.len() <= limit,
                values_of(out@) == self.hit_objects@.take(i as int).filter(keep),
            decreases n - i,
        {
            let obj = &self.hit_objects[i];
            proof {
                lemma_filter_next(self.hit_objects@, i as int, keep);
                lemma_values_push(out@, obj);
            }
            if obj.object_type == kind {
                out.push(obj);
            }
            i += 1;
        }
        proof {
            let all = self.hit_objects@;
            assert(all =~= all.take(i as int) + all.skip(i as int));
            Seq::filter_distributes_over_add(all.take(i as int), all.skip(i as int), keep);
            if i == n {
                assert(all.take(n as int) =~= all);
            }
            assert(values_of(out@) =~= first_up_to(all.filter(keep), limit as int));
        }
        out
    }

    /// The circles, in input order.
    pub fn get_circles(&self) -> (r: Vec<&HitObject>)
        ensures
            values_of(r@) == self.hit_objects@.filter(of_kind(HitObjectType::Circle)),
    {
        proof {
            self.hit_objects@.lemma_filter_len(of_kind(HitObjectType::Circle));
            assert(self.hit_objects@.len() == self.hit_objects.len());
        }
        self.first_of_kind(HitObjectType::Circle, usize::MAX)
    }

    /// The holds, in input order.
    pub fn get_holds(&self) -> (r: Vec<&HitObject>)
        ensures
            values_of(r@) == self.hit_objects@.filter(of_kind(HitObjectType::Hold)),
    {
        proof {
            self.hit_objects@.lemma_filter_len(of_kind(HitObjectType::Hold));
            assert(self.hit_objects@.len() == self.hit_objects.len());
        }
        self.first_of_kind(HitObjectType::Hold, usize::MAX)
    }

    /// The objects whose time lies in the closed range from `start_time` to
    /// `end_time`, in input order.
    pub fn get_objects_in_time_range(&self, start_time: i32, end_time: i32) -> (r: Vec<&HitObject>)
        ensures
            values_of(r@) == self.hit_objects@.filter(in_time_range(start_time, end_time)),
    {
        let ghost keep = in_time_range(start_time, end_time);
        let n: usize = self.hit_objects.len();
        let mut out: Vec<&HitObject> = Vec::new();
        let mut i: usize = 0;
        proof {
            reveal(Seq::filter);
            assert(values_of(out@) =~= self.hit_objects@.take(0).filter(keep));
        }
        while i < n
            invariant
                n == self.hit_objects@.len(),
                i <= n,
                keep == in_time_range(start_time, end_time),
                values_of(out@) == self.hit_objects@.take(i as int).filter(keep),
            decreases n - i,
        {
            let obj = &self.hit_objects[i];
            proof {
                lemma_filter_next(self.hit_objects@, i as int, keep);
                lemma_values_push(out@, obj);
            }
            if obj.time >= start_time && obj.time <= end_time {
                out.push(obj);
            }
            i += 1;
        }
        proof {
            assert(self.hit_objects@.take(n as int) =~= self.hit_objects@);
        }
        out
    }

    /// How many circles and how many holds there are, in that order.
    pub fn count_objects_by_type(&self) -> (r: (usize, usize))
        ensures
            r.0 == self.hit_objects@.filter(of_kind(HitObjectType::Circle)).len(),
            r.1 == self.hit_objects@.filter(of_kind(HitObjectType::Hold)).len(),
            r.0 + r.1 == self.hit_objects@.len(),
    {
        let ghost circle = of_kind(HitObjectType::Circle);
        let ghost hold = of_kind(HitObjectType::Hold);
        let n: usize = self.hit_objects.len();
        let mut circles: usize = 0;
        let mut holds: usize = 0;
        let mut i: usize = 0;
        proof {
            reveal(Seq::filter);
            assert(self.hit_objects@.take(0).filter(circle).len() == 0);
            assert(self.hit_objects@.take(0).filter(hold).len() == 0);
        }
        while i < n
            invariant
                n == self.hit_objects@.len(),
                i <= n,
                circle == of_kind(HitObjectType::Circle),
                hold == of_kind(HitObjectType::Hold),
                circles == self.hit_objects@.take(i as int).filter(circle).len(),
                holds == self.hit_objects@.take(i as int).filter(hold).len(),
                circles + holds == i,
            decreases n - i,
        {
            proof {
                lemma_filter_next(self.hit_objects@, i as int, circle);
                lemma_filter_next(self.hit_objects@, i as int, hold);
            }
            match self.hit_objects[i].object_type {
                HitObjectType::Circle => {
                    circles += 1;
                },
                HitObjectType::Hold => {
                    holds += 1;
                },
            }
            i += 1;
        }
        proof {
            assert(self.hit_objects@.take(n as int) =~= self.hit_objects@);
        }
        (circles, holds)
    }

    /// The first `limit` holds in input order, or all of them where there
    /// are fewer.
    pub fn get_hold_examples(&self, limit: usize) -> (r: Vec<&HitObject>)
        ensures
            values_of(r@) == first_up_to(
                self.hit_objects@.filter(of_kind(HitObjectType::Hold)),
                limit as int,
            ),
    {
        self.first_of_kind(HitObjectType::Hold, limit)
    }

    /// The objects from index `lo` up to `hi` in order of time; objects at
    /// the same time keep their input order.
    fn sorted_range(&self, lo: usize, hi: usize) -> (r: Vec<&HitObject>)
        requires
            lo <= hi <= self.hit_objects@.len(),
        ensures
            r@.len() == hi - lo,
            ordered_by_time(values_of(r@)),
            forall|time: i32| #[trigger]
                values_of(r@).filter(at_time(time)) == self.hit_objects@.subrange(
                    lo as int,
                    hi as int,
                ).filter(at_time(time)),
        decreases hi - lo,
    {
        let ghost range = self.hit_objects@.subrange(lo as int, hi as int);
        if hi - lo <= 1 {
            let mut out: Vec<&HitObject> = Vec::new();
            if lo < hi {
                out.push(&self.hit_objects[lo]);
            }
            proof {
                assert(values_of(out@) =~= range);
            }
            out
        } else {
            let mid: usize = lo + (hi - lo) / 2;
            let left = self.sorted_range(lo, mid);
            let right = self.sorted_range(mid, hi);
            proof {
                let first = self.hit_objects@.subrange(lo as int, mid as int);
                let second = self.hit_objects@.subrange(mid as int, hi as int);
                assert(range =~= first + second);
                assert forall|time: i32| #[trigger]
                    range.filter(at_time(time)) == first.filter(at_time(time)) + second.filter(
                        at_time(time),
                    ) by {
                    Seq::filter_distributes_over_add(first, second, at_time(time));
                }
            }
            merge_by_time(&left, &right)
        }
    }

    /// All objects in order of time; objects at the same time keep their
    /// input order.
    pub fn get_objects_by_time_sorted(&self) -> (r: Vec<&HitObject>)
        ensures
            r@.len() == self.hit_objects@.len(),
            ordered_by_time(values_of(r@)),
            forall|time: i32| #[trigger]
                values_of(r@).filter(at_time(time)) == self.hit_objects@.filter(at_time(time)),
    {
        proof {
            assert(self.hit_objects@.subrange(0, self.hit_objects@.len() as int)
                =~= self.hit_objects@);
        }
        self.sorted_range(0, self.hit_objects.len())
    }

    /// The density histogram for windows of width `time_window`: for each
    /// window that holds an object, its start and the number of objects in
    /// it, in ascending order of the start.
    pub fn get_density_analysis(&self, time_window: i32) -> (r: Vec<(i32, usize)>)
        requires
            time_window > 0,
            forall|i: int|
                0 <= i < self.hit_objects@.len() ==> window_start(
                    (#[trigger] self.hit_objects@[i]).time,
                    time_window,
                ) >= i32::MIN,
        ensures
            is_histogram_of(r@, self.hit_objects@, time_window),
    {
        let n: usize = self.hit_objects.len();
        let mut out: Vec<(i32, usize)> = Vec::new();
        let mut i: usize = 0;
        proof {
            reveal(Seq::filter);
            assert forall|key: int| count_in_window(
                self.hit_objects@.take(0),
                time_window,
                key,
            ) == 0 by {}
        }
        while i < n
            invariant
                n == self.hit_objects@.len(),
                i <= n,
                time_window > 0,
                forall|k: int|
                    0 <= k < self.hit_objects@.len() ==> window_start(
                        (#[trigger] self.hit_objects@[k]).time,
                        time_window,
                    ) >= i32::MIN,
                is_histogram_of(out@, self.hit_objects@.take(i as int), time_window),
            decreases n - i,
        {
            let ghost objs = self.hit_objects@;
            let ghost before = out@;
            let key = window_start_of(self.hit_objects[i].time, time_window);
            let p = find_window_slot(&out, key);
            proof {
                assert forall|any: int|
                    count_in_window(objs.take(i as int + 1), time_window, any) == count_in_window(
                        objs.take(i as int),
                        time_window,
                        any,
                    ) + if key == any {
                        1nat
                    } else {
                        0nat
                    } && count_in_window(objs.take(i as int), time_window, any) <= i by {
                    lemma_count_next(objs, i as int, time_window, any);
                }
            }
            if p < out.len() && out[p].0 == key {
                let count = out[p].1;
                out.set(p, (key, count + 1));
                proof {
                    let after = out@;
                    assert forall|any: int|
                        (#[trigger] count_in_window(objs.take(i as int + 1), time_window, any))
                            > 0 implies has_window(after, any) by {
                        lemma_count_next(objs, i as int, time_window, any);
                        if any == key {
                            assert(after[p as int].0 == any);
                        } else {
                            assert(has_window(before, any));
                            let j = choose|j: int|
                                0 <= j < before.len() && (#[trigger] before[j]).0 == any;
                            assert(after[j].0 == any);
                        }
                    }
                }
            } else {
                proof {
                    if count_in_window(objs.take(i as int), time_window, key as int) > 0 {
                        assert(has_window(before, key as int));
                        let j = choose|j: int|
                            0 <= j < before.len() && (#[trigger] before[j]).0 == key;
                        if j < p {
                            assert(before[j].0 < key);
                        } else {
                            assert(before[p as int].0 <= before[j].0);
                        }
                    }
                }
                out.insert(p, (key, 1));
                proof {
                    let after = out@;
                    assert forall|a: int, b: int| 0 <= a < b < after.len() implies after[a].0
                        < after[b].0 by {
                        if b < p {
                            assert(after[a] == before[a] && after[b] == before[b]);
                        } else if b == p {
                            assert(after[a] == before[a]);
                        } else if a < p {
                            assert(after[a] == before[a] && after[b] == before[b - 1]);
                            assert(before[p as int].0 <= before[b - 1].0);
                        } else if a == p {
                            assert(after[b] == before[b - 1]);
                            assert(before[p as int].0 <= before[b - 1].0);
                        } else {
                            assert(after[a] == before[a - 1] && after[b] == before[b - 1]);
                        }
                    }
                    assert forall|j: int| 0 <= j < after.len() implies (#[trigger] after[j]).1 >= 1
                        && after[j].1 == count_in_window(
                        objs.take(i as int + 1),
                        time_window,
                        after[j].0 as int,
                    ) by {
                        if j < p {
                            assert(after[j] == before[j]);
                        } else if j > p {
                            assert(after[j] == before[j - 1]);
                            assert(before[p as int].0 <= before[j - 1].0);
                        }
                    }
                    assert forall|any: int|
                        (#[trigger] count_in_window(objs.take(i as int + 1), time_window, any))
                            > 0 implies has_window(after, any) by {
                        lemma_count_next(objs, i as int, time_window, any);
                        if any == key {
                            assert(after[p as int].0 == any);
                        } else {
                            assert(has_window(before, any));
                            let j = choose|j: int|
                                0 <= j < before.len() && (#[trigger] before[j]).0 == any;
                            if j < p {
                                assert(after[j].0 == any);
                            } else {
                                assert(after[j + 1] == before[j]);
                            }
                        }
                    }
                }
            }
            i += 1;
        }
        proof {
            assert(self.hit_objects@.take(n as int) =~= self.hit_objects@);
        }
        out
    }
}

/// Merges two runs that are each in order of time into one. Where an
/// object of `left` and one of `right` are at the same time, the one of
/// `left` comes first.
fn merge_by_time<'a>(left: &Vec<&'a HitObject>, right: &Vec<&'a HitObject>) -> (out: Vec<
    &'a HitObject,
>)
    requires
        ordered_by_time(values_of(left@)),
        ordered_by_time(values_of(right@)),
        left@.len() + right@.len() <= usize::MAX,
    ensures
        out@.len() == left@.len() + right@.len(),
        ordered_by_time(values_of(out@)),
        forall|time: i32| #[trigger]
            values_of(out@).filter(at_time(time)) == values_of(left@).filter(at_time(time))
                + values_of(right@).filter(at_time(time)),
{
    let ghost lv = values_of(left@);
    let ghost rv = values_of(right@);
    let ln: usize = left.len();
    let rn: usize = right.len();
    let mut out: Vec<&'a HitObject> = Vec::new();
    let mut i: usize = 0;
    let mut j: usize = 0;
    proof {
        reveal(Seq::filter);
        assert forall|time: i32| #[trigger]
            values_of(out@).filter(at_time(time)) == lv.take(0).filter(at_time(time)) + rv.take(
                0,
            ).filter(at_time(time)) by {
            assert(values_of(out@) =~= Seq::<HitObject>::empty());
            assert(lv.take(0).filter(at_time(time)) + rv.take(0).filter(at_time(time))
                =~= Seq::<HitObject>::empty());
        }
    }
    while i < ln || j < rn
        invariant
            lv == values_of(left@),
            rv == values_of(right@),
            ln == left@.len(),
            rn == right@.len(),
            ln + rn <= usize::MAX,
            i <= ln,
            j <= rn,
            out@.len() == i + j,
            ordered_by_time(lv),
            ordered_by_time(rv),
            ordered_by_time(values_of(out@)),
            forall|k: int| 0 <= k < out@.len() && i < ln ==> (#[trigger] out@[k]).time <= lv[i as int].time,
            forall|k: int| 0 <= k < out@.len() && j < rn ==> (#[trigger] out@[k]).time <= rv[j as int].time,
            forall|k: int| 0 <= k < j && i < ln ==> (#[trigger] rv[k]).time < lv[i as int].time,
            forall|time: i32| #[trigger]
                values_of(out@).filter(at_time(time)) == lv.take(i as int).filter(at_time(time))
                    + rv.take(j as int).filter(at_time(time)),
        decreases (ln - i) + (rn - j),
    {
        let ghost before = out@;
        let take_left = if i < ln && j < rn {
            left[i].time <= right[j].time
        } else {
            i < ln
        };
        if take_left {
            let obj = left[i];
            proof {
                assert(*obj == lv[i as int]);
                lemma_values_push(before, obj);
                if j < rn {
                    assert(rv[j as int] == *right@[j as int]);
                }
                assert forall|time: i32| #[trigger]
                    values_of(before.push(obj)).filter(at_time(time)) == lv.take(
                        i as int + 1,
                    ).filter(at_time(time)) + rv.take(j as int).filter(at_time(time)) by {
                    let keep = at_time(time);
                    lemma_filter_push(values_of(before), *obj, keep);
                    lemma_filter_next(lv, i as int, keep);
                    assert(values_of(before).filter(keep) == lv.take(i as int).filter(keep)
                        + rv.take(j as int).filter(keep));
                    if obj.time == time {
                        let taken = rv.take(j as int);
                        assert forall|k: int| 0 <= k < taken.len() implies !keep(
                            #[trigger] taken[k],
                        ) by {
                            assert(taken[k] == rv[k]);
                        }
                        lemma_filter_none(taken, keep);
                        assert(lv.take(i as int).filter(keep).push(*obj) + taken.filter(keep)
                            =~= (lv.take(i as int).filter(keep) + taken.filter(keep)).push(*obj));
                    }
                }
            }
            out.push(obj);
            i += 1;
            proof {
                let after = values_of(out@);
                assert forall|a: int, b: int| 0 <= a < b < after.len() implies after[a].time
                    <= after[b].time by {
                    if b < before.len() {
                        assert(after[a] == values_of(before)[a] && after[b] == values_of(
                            before,
                        )[b]);
                    } else {
                        assert(out@[a] == before[a]);
                    }
                }
                assert forall|k: int| 0 <= k < out@.len() && i < ln implies (
                #[trigger] out@[k]).time <= lv[i as int].time by {
                    if k < before.len() {
                        assert(out@[k] == before[k]);
                    }
                }
                assert forall|k: int| 0 <= k < out@.len() && j < rn implies (
                #[trigger] out@[k]).time <= rv[j as int].time by {
                    if k < before.len() {
                        assert(out@[k] == before[k]);
                    }
                }
            }
        } else {
            let obj = right[j];
            proof {
                assert(*obj == rv[j as int]);
                lemma_values_push(before, obj);
                if i < ln {
                    assert(lv[i as int] == *left@[i as int]);
                }
                assert forall|time: i32| #[trigger]
                    values_of(before.push(obj)).filter(at_time(time)) == lv.take(i as int).filter(
                        at_time(time),
                    ) + rv.take(j as int + 1).filter(at_time(time)) by {
                    let keep = at_time(time);
                    lemma_filter_push(values_of(before), *obj, keep);
                    lemma_filter_next(rv, j as int, keep);
                    assert(values_of(before).filter(keep) == lv.take(i as int).filter(keep)
                        + rv.take(j as int).filter(keep));
                    if obj.time == time {
                        assert(lv.take(i as int).filter(keep) + rv.take(j as int).filter(
                            keep,
                        ).push(*obj) =~= (lv.take(i as int).filter(keep) + rv.take(
                            j as int,
                        ).filter(keep)).push(*obj));
                    }
                }
            }
            out.push(obj);
            j += 1;
            proof {
                let after = values_of(out@);
                assert forall|a: int, b: int| 0 <= a < b < after.len() implies after[a].time
                    <= after[b].time by {
                    if b < before.len() {
                        assert(after[a] == values_of(before)[a] && after[b] == values_of(
                            before,
                        )[b]);
                    } else {
                        assert(out@[a] == before[a]);
                    }
                }
                assert forall|k: int| 0 <= k < out@.len() && i < ln implies (
                #[trigger] out@[k]).time <= lv[i as int].time by {
                    if k < before.len() {
                        assert(out@[k] == before[k]);
                    }
                }
                assert forall|k: int| 0 <= k < out@.len() && j < rn implies (
                #[trigger] out@[k]).time <= rv[j as int].time by {
                    if k < before.len() {
                        assert(out@[k] == before[k]);
                    }
                }
            }
        }
    }
    proof {
        assert(lv.take(ln as int) =~= lv);
        assert(rv.take(rn as int) =~= rv);
    }
    out
}

} // verus!
