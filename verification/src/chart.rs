//! The dashboard's aggregation of log updates: counts of lines and of error lines per
//! minute, kept in time-label order for the charts, and the text shown for each line.
use vstd::prelude::*;
use std::collections::VecDeque;
use vstd::string::StringSliceAdditionalSpecFns;
use vstd::utf8::{encode_scalar, encode_utf8, decode_utf8, is_char_boundary, encode_utf8_decode_utf8};
use crate::text::{chars_of, chars_equal, string_of, push_char, push_str};

verus! {

/// The order of strings: code point by code point, a proper prefix first. UTF-8
/// preserves code point order, so this is the byte order that `Ord` on `String` uses.
pub open spec fn str_lt(a: Seq<char>, b: Seq<char>) -> bool
    decreases a.len(),
{
    if a.len() == 0 {
        b.len() > 0
    } else if b.len() == 0 {
        false
    } else if a[0] == b[0] {
        str_lt(a.drop_first(), b.drop_first())
    } else {
        (a[0] as u32) < (b[0] as u32)
    }
}

proof fn lemma_char_u32_injective(x: char, y: char)
    requires
        x != y,
    ensures
        (x as u32) != (y as u32),
{
    broadcast use vstd::utf8::char_u32_cast;
}

/// No string comes before itself.
pub proof fn lemma_str_lt_irreflexive(a: Seq<char>)
    ensures
        !str_lt(a, a),
    decreases a.len(),
{
    if a.len() > 0 {
        lemma_str_lt_irreflexive(a.drop_first());
    }
}

/// Of two different strings, one comes first.
pub proof fn lemma_str_lt_total(a: Seq<char>, b: Seq<char>)
    requires
        a != b,
    ensures
        str_lt(a, b) || str_lt(b, a),
    decreases a.len(),
{
    if a.len() > 0 && b.len() > 0 {
        if a[0] == b[0] {
            if a.drop_first() == b.drop_first() {
                assert(a =~= seq![a[0]] + a.drop_first());
                assert(b =~= seq![b[0]] + b.drop_first());
            }
            lemma_str_lt_total(a.drop_first(), b.drop_first());
        } else {
            lemma_char_u32_injective(a[0], b[0]);
        }
    } else if a.len() == 0 && b.len() == 0 {
        assert(a =~= b);
    }
}

/// The order is transitive.
pub proof fn lemma_str_lt_transitive(a: Seq<char>, b: Seq<char>, c: Seq<char>)
    requires
        str_lt(a, b),
        str_lt(b, c),
    ensures
        str_lt(a, c),
    decreases a.len(),
{
    if a.len() > 0 && b.len() > 0 && c.len() > 0 {
        if a[0] == b[0] && b[0] == c[0] {
            lemma_str_lt_transitive(a.drop_first(), b.drop_first(), c.drop_first());
        } else {
            broadcast use vstd::utf8::char_u32_cast;
            if a[0] == c[0] {
                if a[0] == b[0] {
                } else {
                    assert((a[0] as u32) < (b[0] as u32));
                    assert(b[0] == c[0] || (b[0] as u32) < (c[0] as u32));
                }
            }
        }
    }
}

/// Whether `a` comes before `b`.
pub fn less_than(a: &Vec<char>, b: &Vec<char>) -> (r: bool)
    ensures
        r == str_lt(a@, b@),
{
    let mut i: usize = 0;
    assert(a@.skip(0) == a@);
    assert(b@.skip(0) == b@);
    while i < a.len() && i < b.len() && a[i] == b[i]
        invariant
            i <= a.len(),
            i <= b.len(),
            str_lt(a@, b@) == str_lt(a@.skip(i as int), b@.skip(i as int)),
        decreases a.len() - i,
    {
        assert(a@.skip(i as int).drop_first() == a@.skip(i + 1));
        assert(b@.skip(i as int).drop_first() == b@.skip(i + 1));
        i = i + 1;
    }
    if i == a.len() {
        i < b.len()
    } else if i == b.len() {
        false
    } else {
        assert(a@.skip(i as int)[0] == a@[i as int]);
        assert(b@.skip(i as int)[0] == b@[i as int]);
        (a[i] as u32) < (b[i] as u32)
    }
}

/// The bytes of a minute key: for a time label of at least eight bytes, the bytes at
/// positions 6 and 7 (the seconds of `HH:MM:SS`) become `00`; shorter labels stay as
/// they are.
pub open spec fn minute_key_bytes(b: Seq<u8>) -> Seq<u8> {
    if b.len() >= 8 {
        b.subrange(0, 6) + seq![48u8, 48u8] + b.subrange(8, b.len() as int)
    } else {
        b
    }
}

/// The minute key of a time label: the label with its seconds replaced by `00`.
pub open spec fn minute_key_of(time: Seq<char>) -> Seq<char> {
    decode_utf8(minute_key_bytes(encode_utf8(time)))
}

/// Whether the seconds of a time label can be replaced: it is shorter than eight bytes,
/// or bytes 6 and 8 both start characters.
pub open spec fn key_replaceable(time: Seq<char>) -> bool {
    let b = encode_utf8(time);
    b.len() < 8 || (is_char_boundary(b, 6) && is_char_boundary(b, 8))
}

proof fn lemma_encode_concat(a: Seq<char>, b: Seq<char>)
    ensures
        encode_utf8(a + b) == encode_utf8(a) + encode_utf8(b),
    decreases a.len(),
{
    if a.len() > 0 {
        lemma_encode_concat(a.drop_first(), b);
        assert((a + b).drop_first() == a.drop_first() + b);
        assert((a + b)[0] == a[0]);
    } else {
        assert(a + b == b);
    }
}

proof fn lemma_encode_zeros()
    ensures
        encode_utf8(seq!['0', '0']) == seq![48u8, 48u8],
{
    let zeros = seq!['0', '0'];
    let one = seq!['0'];
    assert((48u32 & 0x7F) as u8 == 48u8) by (bit_vector);
    assert(encode_scalar(48u32) =~= seq![48u8]);
    assert(one[0] == '0');
    assert(one.drop_first() =~= Seq::<char>::empty());
    assert(encode_utf8(Seq::<char>::empty()) =~= Seq::<u8>::empty());
    assert(encode_utf8(one) == encode_scalar(one[0] as u32) + encode_utf8(one.drop_first()));
    assert(zeros.drop_first() =~= one);
    assert(encode_utf8(zeros) =~= seq![48u8, 48u8]);
}

proof fn lemma_encode_ascii_len(s: Seq<char>)
    requires
        forall|i: int| 0 <= i < s.len() ==> (#[trigger] s[i] as u32) < 128,
    ensures
        encode_utf8(s).len() == s.len(),
    decreases s.len(),
{
    if s.len() > 0 {
        assert forall|i: int| 0 <= i < s.drop_first().len() implies (#[trigger] s.drop_first()[i] as u32) < 128 by {
            assert(s.drop_first()[i] == s[i + 1]);
        }
        lemma_encode_ascii_len(s.drop_first());
        assert((s[0] as u32) < 128);
    }
}

/// For an ASCII label `HH:MM:SS...` the minute key keeps the hours and minutes and
/// everything after the seconds, and reads `00` for the seconds.
pub proof fn minute_key_of_ascii(time: Seq<char>)
    requires
        time.len() >= 8,
        forall|i: int| 0 <= i < time.len() ==> (#[trigger] time[i] as u32) < 128,
    ensures
        minute_key_of(time) == time.take(6) + seq!['0', '0'] + time.skip(8),
{
    let a = time.take(6);
    let m = time.subrange(6, 8);
    let c = time.skip(8);
    let zeros = seq!['0', '0'];
    assert(time == a + m + c);
    assert forall|i: int| 0 <= i < a.len() implies (#[trigger] a[i] as u32) < 128 by {
        assert(a[i] == time[i]);
    }
    assert forall|i: int| 0 <= i < m.len() implies (#[trigger] m[i] as u32) < 128 by {
        assert(m[i] == time[i + 6]);
    }
    lemma_encode_ascii_len(a);
    lemma_encode_ascii_len(m);
    lemma_encode_concat(a + m, c);
    lemma_encode_concat(a, m);
    lemma_encode_concat(a + zeros, c);
    lemma_encode_concat(a, zeros);
    lemma_encode_zeros();
    let b = encode_utf8(time);
    assert(b == encode_utf8(a) + encode_utf8(m) + encode_utf8(c));
    assert(minute_key_bytes(b) =~= encode_utf8(a + zeros + c));
    encode_utf8_decode_utf8(a + zeros + c);
}

/// The minute key of a time label (see `minute_key_of`).
pub fn minute_key(time: &str) -> (r: String)
    requires
        key_replaceable(time@),
    ensures
        r@ == minute_key_of(time@),
{
    proof {
        encode_utf8_decode_utf8(time@);
    }
    if time.as_bytes().len() < 8 {
        assert(time.spec_bytes() == encode_utf8(time@));
        assert(minute_key_bytes(encode_utf8(time@)) == encode_utf8(time@));
        return crate::text::owned(time);
    }
    let (head, _) = time.split_at(6);
    let (_, tail) = time.split_at(8);
    let mut r = crate::text::owned(head);
    push_char(&mut r, '0');
    push_char(&mut r, '0');
    push_str(&mut r, tail);
    proof {
        let zeros = seq!['0', '0'];
        assert(r@ == head@ + zeros + tail@);
        lemma_encode_concat(head@ + zeros, tail@);
        lemma_encode_concat(head@, zeros);
        lemma_encode_zeros();
        assert(encode_utf8(r@) =~= minute_key_bytes(encode_utf8(time@)));
        encode_utf8_decode_utf8(r@);
    }
    r
}

/// How many minutes the charts keep.
pub const CHART_LIMIT: usize = 500;

/// A minute of the chart: its key, the number of lines, and the number of error lines.
pub type MinuteEntry = (Seq<char>, u32, u32);

/// The keys are in strictly increasing order.
pub open spec fn sorted_keys(m: Seq<MinuteEntry>) -> bool {
    forall|i: int, j: int| 0 <= i < j < m.len() ==> str_lt(#[trigger] m[i].0, #[trigger] m[j].0)
}

/// The number of lines over all minutes.
pub open spec fn total_sum(m: Seq<MinuteEntry>) -> nat
    decreases m.len(),
{
    if m.len() == 0 {
        0
    } else {
        total_sum(m.drop_last()) + m.last().1 as nat
    }
}

/// The number of error lines over all minutes.
pub open spec fn error_sum(m: Seq<MinuteEntry>) -> nat
    decreases m.len(),
{
    if m.len() == 0 {
        0
    } else {
        error_sum(m.drop_last()) + m.last().2 as nat
    }
}

/// Where `key` stands among the keys: the number of keys before it.
pub open spec fn insert_pos(m: Seq<MinuteEntry>, key: Seq<char>) -> int
    decreases m.len(),
{
    if m.len() == 0 {
        0
    } else if str_lt(m[0].0, key) {
        1 + insert_pos(m.drop_first(), key)
    } else {
        0
    }
}

/// The minutes after one more line with the minute `key`: its minute counts one more
/// line (and one more error line if `err`), a minute new to the chart starting at one.
pub open spec fn bumped(m: Seq<MinuteEntry>, key: Seq<char>, err: bool) -> Seq<MinuteEntry> {
    let p = insert_pos(m, key);
    let e: u32 = if err { 1 } else { 0 };
    if p < m.len() && m[p].0 == key {
        m.update(p, (key, (m[p].1 + 1) as u32, (m[p].2 + e) as u32))
    } else {
        m.insert(p, (key, 1u32, e))
    }
}

/// The minutes after recording a line: counted, then the first minute dropped when more
/// than `CHART_LIMIT` minutes are held.
pub open spec fn recorded(m: Seq<MinuteEntry>, key: Seq<char>, err: bool) -> Seq<MinuteEntry> {
    let b = bumped(m, key, err);
    if b.len() > 500 {
        b.drop_first()
    } else {
        b
    }
}

/// Whether counting one more line of minute `key` keeps every count, and the sum of the
/// line counts over the chart, within `u32`.
pub open spec fn record_fits(m: Seq<MinuteEntry>, key: Seq<char>, err: bool) -> bool {
    let p = insert_pos(m, key);
    &&& (p < m.len() && m[p].0 == key ==> m[p].1 < u32::MAX)
    &&& total_sum(recorded(m, key, err)) <= u32::MAX
}

/// The invariant of the chart: keys in increasing order, at most `CHART_LIMIT` minutes,
/// each counting at least one line and no more error lines than lines, and the sum of
/// the line counts within `u32`.
pub open spec fn chart_wf(m: Seq<MinuteEntry>) -> bool {
    &&& sorted_keys(m)
    &&& m.len() <= 500
    &&& forall|i: int| 0 <= i < m.len() ==> 1 <= #[trigger] m[i].1 && m[i].2 <= m[i].1
    &&& total_sum(m) <= u32::MAX
}

proof fn lemma_error_sum_le(m: Seq<MinuteEntry>)
    requires
        forall|i: int| 0 <= i < m.len() ==> (#[trigger] m[i]).2 <= m[i].1,
    ensures
        error_sum(m) <= total_sum(m),
    decreases m.len(),
{
    if m.len() > 0 {
        assert forall|i: int| 0 <= i < m.drop_last().len() implies (#[trigger] m.drop_last()[i]).2
            <= m.drop_last()[i].1 by {
            assert(m.drop_last()[i] == m[i]);
        }
        lemma_error_sum_le(m.drop_last());
        assert(m.last() == m[m.len() - 1]);
    }
}

proof fn lemma_sum_prefix(m: Seq<MinuteEntry>, i: int)
    requires
        0 <= i <= m.len(),
    ensures
        total_sum(m.take(i)) <= total_sum(m),
        error_sum(m.take(i)) <= error_sum(m),
    decreases m.len() - i,
{
    if i < m.len() {
        lemma_sum_prefix(m, i + 1);
        assert(m.take(i + 1).drop_last() == m.take(i));
    } else {
        assert(m.take(i) == m);
    }
}

proof fn lemma_insert_pos_skip(m: Seq<MinuteEntry>, key: Seq<char>, p: int)
    requires
        0 <= p <= m.len(),
        forall|i: int| 0 <= i < p ==> str_lt(#[trigger] m[i].0, key),
    ensures
        insert_pos(m, key) == p + insert_pos(m.skip(p), key),
    decreases p,
{
    if p > 0 {
        lemma_insert_pos_skip(m, key, p - 1);
        let t = m.skip(p - 1);
        assert(t[0] == m[p - 1]);
        assert(t.drop_first() == m.skip(p));
    } else {
        assert(m.skip(0) == m);
    }
}

/// The number of lines and error lines of one minute.
pub struct MinuteCount {
    key: Vec<char>,
    total: u32,
    errors: u32,
}

/// The series drawn by the log chart: the position of each minute, its line count, its
/// error-line count, and its key, minute by minute in key order.
pub struct ChartSeries {
    pub x_axis: Vec<usize>,
    pub totals: Vec<u32>,
    pub errors: Vec<u32>,
    pub timestamps: Vec<String>,
}

/// Counts of log lines and error lines per minute, for the last `CHART_LIMIT` minutes
/// in key order.
pub struct LogChart {
    minutes: Vec<MinuteCount>,
}

impl LogChart {
    /// The minutes held, in key order.
    pub closed spec fn view(&self) -> Seq<MinuteEntry> {
        self.minutes@.map_values(|c: MinuteCount| (c.key@, c.total, c.errors))
    }

    /// The chart's invariant holds of the minutes held (see `chart_wf`).
    pub open spec fn wf(&self) -> bool {
        chart_wf(self.view())
    }

    /// An empty chart.
    pub fn new() -> (c: LogChart)
        ensures
            c.wf(),
            c.view() == Seq::<MinuteEntry>::empty(),
    {
        let c = LogChart { minutes: Vec::new() };
        assert(c.view() =~= Seq::<MinuteEntry>::empty());
        c
    }

    fn position(&self, key: &Vec<char>) -> (p: usize)
        ensures
            p == insert_pos(self.view(), key@),
            p <= self.view().len(),
    {
        let ghost m = self.view();
        let mut p: usize = 0;
        while p < self.minutes.len() && less_than(&self.minutes[p].key, key)
            invariant
                p <= self.minutes.len(),
                m == self.view(),
                forall|i: int| 0 <= i < p ==> str_lt(#[trigger] m[i].0, key@),
            decreases self.minutes.len() - p,
        {
            assert(m[p as int].0 == self.minutes@[p as int].key@);
            p = p + 1;
        }
        proof {
            lemma_insert_pos_skip(m, key@, p as int);
            if p < m.len() {
                assert(m.skip(p as int)[0] == m[p as int]);
                assert(m[p as int].0 == self.minutes@[p as int].key@);
            }
        }
        p
    }

    /// The number of lines over all minutes.
    pub fn total_count(&self) -> (r: u32)
        requires
            self.wf(),
        ensures
            r == total_sum(self.view()),
    {
        let ghost m = self.view();
        let mut sum: u32 = 0;
        let mut i: usize = 0;
        while i < self.minutes.len()
            invariant
                i <= self.minutes.len(),
                m == self.view(),
                chart_wf(m),
                sum == total_sum(m.take(i as int)),
            decreases self.minutes.len() - i,
        {
            proof {
                lemma_sum_prefix(m, i + 1);
                assert(m.take(i + 1).drop_last() == m.take(i as int));
                assert(m[i as int].1 == self.minutes@[i as int].total);
            }
            sum = sum + self.minutes[i].total;
            i = i + 1;
        }
        assert(m.take(i as int) == m);
        sum
    }

    /// The number of error lines over all minutes.
    pub fn error_count(&self) -> (r: u32)
        requires
            self.wf(),
        ensures
            r == error_sum(self.view()),
            r <= total_sum(self.view()),
    {
        let ghost m = self.view();
        proof {
            lemma_error_sum_le(m);
        }
        let mut sum: u32 = 0;
        let mut i: usize = 0;
        while i < self.minutes.len()
            invariant
                i <= self.minutes.len(),
                m == self.view(),
                chart_wf(m),
                error_sum(m) <= total_sum(m),
                sum == error_sum(m.take(i as int)),
            decreases self.minutes.len() - i,
        {
            proof {
                lemma_sum_prefix(m, i + 1);
                assert(m.take(i + 1).drop_last() == m.take(i as int));
                assert(m[i as int].2 == self.minutes@[i as int].errors);
            }
            sum = sum + self.minutes[i].errors;
            i = i + 1;
        }
        assert(m.take(i as int) == m);
        sum
    }

    /// Counts one line with the time label `time` (an error line if `error`) under the
    /// minute of the label (see `minute_key_of`); when more than `CHART_LIMIT` minutes are
    /// then held, the first minute in key order is dropped.
    pub fn record(&mut self, time: &str, error: bool)
        requires
            old(self).wf(),
            key_replaceable(time@),
            record_fits(old(self).view(), minute_key_of(time@), error),
        ensures
            final(self).wf(),
            final(self).view() == recorded(old(self).view(), minute_key_of(time@), error),
    {
        let ghost m = self.view();
        let key_string = minute_key(time);
        let key = chars_of(key_string.as_str());
        let p = self.position(&key);
        proof {
            lemma_insert_pos_bounds(m, key@);
            recording_keeps_chart_ordered(m, key@, error);
            if p < self.minutes.len() {
                assert(m[p as int].0 == self.minutes@[p as int].key@);
            }
        }
        let e: u32 = if error { 1 } else { 0 };
        if p < self.minutes.len() && chars_equal(&self.minutes[p].key, &key) {
            assert(m[p as int].1 == self.minutes@[p as int].total);
            assert(m[p as int].2 == self.minutes@[p as int].errors);
            assert(m[p as int].2 <= m[p as int].1) by {
                assert(0 <= p < m.len());
            }
            let total = self.minutes[p].total + 1;
            let errors = self.minutes[p].errors + e;
            self.minutes.set(p, MinuteCount { key, total, errors });
            assert(self.view() =~= bumped(m, key_string@, error));
        } else {
            self.minutes.insert(p, MinuteCount { key, total: 1, errors: e });
            assert(self.view() =~= bumped(m, key_string@, error));
        }
        if self.minutes.len() > CHART_LIMIT {
            let ghost full = self.view();
            let _ = self.minutes.remove(0);
            assert(self.view() =~= full.drop_first());
        }
    }

    /// What the charts draw: minute by minute in key order, the position, the line count,
    /// the error-line count and the key.
    pub fn series(&self) -> (s: ChartSeries)
        ensures
            s.x_axis@.len() == self.view().len(),
            s.totals@.len() == self.view().len(),
            s.errors@.len() == self.view().len(),
            s.timestamps@.len() == self.view().len(),
            forall|i: int| #![trigger self.view()[i]] 0 <= i < self.view().len() ==> {
                &&& s.x_axis@[i] == i
                &&& s.totals@[i] == self.view()[i].1
                &&& s.errors@[i] == self.view()[i].2
                &&& s.timestamps@[i]@ == self.view()[i].0
            },
            self.wf() ==> s.timestamps@.len() <= 500,
            self.wf() ==> forall|i: int, j: int| 0 <= i < j < s.timestamps@.len()
                ==> str_lt(#[trigger] s.timestamps@[i]@, #[trigger] s.timestamps@[j]@),
            self.wf() ==> forall|i: int| 0 <= i < s.totals@.len()
                ==> 1 <= #[trigger] s.totals@[i] && s.errors@[i] <= s.totals@[i],
    {
        let ghost m = self.view();
        let mut xs: Vec<usize> = Vec::new();
        let mut totals: Vec<u32> = Vec::new();
        let mut errors: Vec<u32> = Vec::new();
        let mut stamps: Vec<String> = Vec::new();
        let mut i: usize = 0;
        while i < self.minutes.len()
            invariant
                i <= self.minutes.len(),
                m == self.view(),
                xs@.len() == i,
                totals@.len() == i,
                errors@.len() == i,
                stamps@.len() == i,
                forall|k: int| 0 <= k < i ==> #[trigger] xs@[k] == k,
                forall|k: int| 0 <= k < i ==> #[trigger] totals@[k] == m[k].1,
                forall|k: int| 0 <= k < i ==> #[trigger] errors@[k] == m[k].2,
                forall|k: int| 0 <= k < i ==> (#[trigger] stamps@[k])@ == m[k].0,
            decreases self.minutes.len() - i,
        {
            let c = &self.minutes[i];
            assert(m[i as int] == (c.key@, c.total, c.errors));
            xs.push(i);
            totals.push(c.total);
            errors.push(c.errors);
            let st = string_of(&c.key);
            stamps.push(st);
            assert(stamps@[i as int]@ == m[i as int].0);
            assert(xs@[i as int] == i);
            assert(totals@[i as int] == m[i as int].1);
            i = i + 1;
        }
        ChartSeries { x_axis: xs, totals, errors, timestamps: stamps }
    }

    /// Whether recording a line with the time label `time` could go ahead: the seconds of
    /// the label can be replaced, and the counts would stay within `u32`.
    pub fn can_record(&self, time: &str, error: bool) -> (r: bool)
        requires
            self.wf(),
        ensures
            r == (key_replaceable(time@) && record_fits(self.view(), minute_key_of(time@), error)),
    {
        assert(time.spec_bytes() == encode_utf8(time@));
        if time.as_bytes().len() >= 8 && !(time.is_char_boundary(6) && time.is_char_boundary(8)) {
            return false;
        }
        let ghost m = self.view();
        let key_string = minute_key(time);
        let key = chars_of(key_string.as_str());
        let p = self.position(&key);
        let found = p < self.minutes.len() && chars_equal(&self.minutes[p].key, &key);
        proof {
            if p < self.minutes.len() {
                assert(m[p as int].0 == self.minutes@[p as int].key@);
                assert(m[p as int].1 == self.minutes@[p as int].total);
            }
        }
        if found && self.minutes[p].total == u32::MAX {
            return false;
        }
        proof {
            lemma_recorded_sum(m, key@, error);
        }
        let sum = self.total_count() as u64;
        let grown = if found { self.minutes.len() } else { self.minutes.len() + 1 };
        let mut after = sum + 1;
        if grown > CHART_LIMIT {
            let first: u64 = if p == 0 {
                if found { self.minutes[0].total as u64 + 1 } else { 1 }
            } else {
                self.minutes[0].total as u64
            };
            proof {
                assert(m[0].1 == self.minutes@[0].total);
            }
            after = after - first;
        }
        after <= u32::MAX as u64
    }
}

/// Recording a line keeps the chart in order: the minutes stay in strictly increasing
/// key order (so the x-axis is always sorted), at most `CHART_LIMIT` of them are held,
/// each counts at least one line and no more error lines than lines, and the line counts
/// add up within `u32`.
pub proof fn recording_keeps_chart_ordered(m: Seq<MinuteEntry>, key: Seq<char>, err: bool)
    requires
        chart_wf(m),
        record_fits(m, key, err),
    ensures
        chart_wf(recorded(m, key, err)),
{
    let p = insert_pos(m, key);
    lemma_insert_pos_bounds(m, key);
    lemma_recorded_sum(m, key, err);
    let found = p < m.len() && m[p].0 == key;
    let b = bumped(m, key, err);
    let e: u32 = if err { 1 } else { 0 };
    if found {
        assert forall|i: int, j: int| 0 <= i < j < b.len() implies str_lt(#[trigger] b[i].0, #[trigger] b[j].0) by {
            assert(b[i].0 == m[i].0 && b[j].0 == m[j].0);
        }
        assert forall|i: int| 0 <= i < b.len() implies 1 <= #[trigger] b[i].1 && b[i].2 <= b[i].1 by {
            if i != p {
                assert(b[i] == m[i]);
            } else {
                assert(m[p].2 <= m[p].1);
            }
        }
    } else {
        let x = (key, 1u32, e);
        assert(b == m.insert(p, x));
        if p < m.len() {
            assert(m[p].0 != key);
            lemma_str_lt_total(m[p].0, key);
            assert(str_lt(key, m[p].0));
        }
        assert forall|i: int, j: int| 0 <= i < j < b.len() implies str_lt(#[trigger] b[i].0, #[trigger] b[j].0) by {
            if j < p {
                assert(b[i] == m[i] && b[j] == m[j]);
            } else if j == p {
                assert(b[i] == m[i]);
                assert(b[j] == x);
            } else if i < p {
                assert(b[i] == m[i] && b[j] == m[j - 1]);
            } else if i == p {
                assert(b[j] == m[j - 1]);
                if j - 1 > p {
                    lemma_str_lt_transitive(key, m[p].0, m[j - 1].0);
                }
            } else {
                assert(b[i] == m[i - 1] && b[j] == m[j - 1]);
            }
        }
        assert forall|i: int| 0 <= i < b.len() implies 1 <= #[trigger] b[i].1 && b[i].2 <= b[i].1 by {
            if i < p {
                assert(b[i] == m[i]);
            } else if i > p {
                assert(b[i] == m[i - 1]);
            }
        }
    }
    let r = recorded(m, key, err);
    if b.len() > 500 {
        assert forall|i: int, j: int| 0 <= i < j < r.len() implies str_lt(#[trigger] r[i].0, #[trigger] r[j].0) by {
            assert(r[i] == b[i + 1] && r[j] == b[j + 1]);
        }
        assert forall|i: int| 0 <= i < r.len() implies 1 <= #[trigger] r[i].1 && r[i].2 <= r[i].1 by {
            assert(r[i] == b[i + 1]);
        }
    }
}

/// A line can always be counted while its minute's count and the total stay below the
/// `u32` limit: on a well-formed chart whose line total is below `u32::MAX`, where the
/// line's minute (if already held) counts fewer than `u32::MAX` lines, recording fits,
/// whether the minute is new or not and however many minutes are held.
pub proof fn lines_fit_below_the_limit(m: Seq<MinuteEntry>, key: Seq<char>, err: bool)
    requires
        chart_wf(m),
        total_sum(m) < u32::MAX,
        forall|i: int| 0 <= i < m.len() && #[trigger] m[i].0 == key ==> m[i].1 < u32::MAX,
    ensures
        record_fits(m, key, err),
{
    let p = insert_pos(m, key);
    lemma_insert_pos_bounds(m, key);
    lemma_recorded_sum(m, key, err);
}

/// A full chart (`CHART_LIMIT` minutes) always takes a line of a minute it does not hold:
/// the line is counted, the first minute in key order is dropped, and the chart still
/// holds `CHART_LIMIT` minutes.
pub proof fn full_chart_takes_a_new_minute(m: Seq<MinuteEntry>, key: Seq<char>, err: bool)
    requires
        chart_wf(m),
        m.len() == 500,
        forall|i: int| 0 <= i < m.len() ==> #[trigger] m[i].0 != key,
    ensures
        record_fits(m, key, err),
        recorded(m, key, err).len() == 500,
        recorded(m, key, err) =~= bumped(m, key, err).drop_first(),
{
    let p = insert_pos(m, key);
    lemma_insert_pos_bounds(m, key);
    lemma_recorded_sum(m, key, err);
    assert(m[0].1 >= 1);
}

proof fn lemma_sum_concat(a: Seq<MinuteEntry>, b: Seq<MinuteEntry>)
    ensures
        total_sum(a + b) == total_sum(a) + total_sum(b),
        error_sum(a + b) == error_sum(a) + error_sum(b),
    decreases b.len(),
{
    if b.len() == 0 {
        assert(a + b == a);
    } else {
        lemma_sum_concat(a, b.drop_last());
        assert((a + b).drop_last() == a + b.drop_last());
        assert((a + b).last() == b.last());
    }
}

proof fn lemma_sum_single(x: MinuteEntry)
    ensures
        total_sum(seq![x]) == x.1,
        error_sum(seq![x]) == x.2,
{
    assert(seq![x].drop_last() =~= Seq::<MinuteEntry>::empty());
    assert(total_sum(Seq::<MinuteEntry>::empty()) == 0);
    assert(error_sum(Seq::<MinuteEntry>::empty()) == 0);
}

/// The line count of the recorded chart: one more line, less the lines of the minute
/// dropped when the chart overflows.
proof fn lemma_recorded_sum(m: Seq<MinuteEntry>, key: Seq<char>, err: bool)
    requires
        chart_wf(m),
        ({
            let p = insert_pos(m, key);
            p < m.len() && m[p].0 == key ==> m[p].1 < u32::MAX
        }),
    ensures
        ({
            let p = insert_pos(m, key);
            let found = p < m.len() && m[p].0 == key;
            let b = bumped(m, key, err);
            let first: int = if p == 0 {
                if found { m[0].1 + 1 } else { 1 }
            } else {
                m[0].1 as int
            };
            &&& b.len() == (if found { m.len() } else { m.len() + 1 })
            &&& 0 <= p <= m.len()
            &&& b.len() > 0 && b[0].1 == first
            &&& first <= total_sum(m) + 1
            &&& total_sum(recorded(m, key, err)) == total_sum(m) + 1 - (if b.len() > 500 { first } else { 0 })
        }),
{
    let p = insert_pos(m, key);
    lemma_insert_pos_bounds(m, key);
    let found = p < m.len() && m[p].0 == key;
    let b = bumped(m, key, err);
    let e: u32 = if err { 1 } else { 0 };
    if found {
        lemma_update_sum(m, p, (key, (m[p].1 + 1) as u32, (m[p].2 + e) as u32));
    } else {
        lemma_insert_sum(m, p, (key, 1u32, e));
    }
    if m.len() > 0 {
        lemma_first_sum(m);
    }
    if b.len() > 500 {
        lemma_first_sum(b);
    }
}

proof fn lemma_update_sum(m: Seq<MinuteEntry>, p: int, x: MinuteEntry)
    requires
        0 <= p < m.len(),
    ensures
        total_sum(m.update(p, x)) == total_sum(m) - m[p].1 + x.1,
{
    assert(m == m.take(p) + seq![m[p]] + m.skip(p + 1));
    assert(m.update(p, x) == m.take(p) + seq![x] + m.skip(p + 1));
    lemma_sum_concat(m.take(p) + seq![m[p]], m.skip(p + 1));
    lemma_sum_concat(m.take(p), seq![m[p]]);
    lemma_sum_concat(m.take(p) + seq![x], m.skip(p + 1));
    lemma_sum_concat(m.take(p), seq![x]);
    lemma_sum_single(x);
    lemma_sum_single(m[p]);
}

proof fn lemma_insert_sum(m: Seq<MinuteEntry>, p: int, x: MinuteEntry)
    requires
        0 <= p <= m.len(),
    ensures
        total_sum(m.insert(p, x)) == total_sum(m) + x.1,
{
    assert(m == m.take(p) + m.skip(p));
    assert(m.insert(p, x) == m.take(p) + seq![x] + m.skip(p));
    lemma_sum_concat(m.take(p), m.skip(p));
    lemma_sum_concat(m.take(p) + seq![x], m.skip(p));
    lemma_sum_concat(m.take(p), seq![x]);
    lemma_sum_single(x);
}

proof fn lemma_first_sum(m: Seq<MinuteEntry>)
    requires
        m.len() > 0,
    ensures
        m[0].1 <= total_sum(m),
        total_sum(m.drop_first()) == total_sum(m) - m[0].1,
{
    assert(m == seq![m[0]] + m.drop_first());
    lemma_sum_concat(seq![m[0]], m.drop_first());
    lemma_sum_single(m[0]);
}

proof fn lemma_insert_pos_bounds(m: Seq<MinuteEntry>, key: Seq<char>)
    ensures
        0 <= insert_pos(m, key) <= m.len(),
        forall|i: int| 0 <= i < insert_pos(m, key) ==> str_lt(#[trigger] m[i].0, key),
        insert_pos(m, key) < m.len() ==> !str_lt(m[insert_pos(m, key)].0, key),
    decreases m.len(),
{
    if m.len() > 0 && str_lt(m[0].0, key) {
        lemma_insert_pos_bounds(m.drop_first(), key);
        assert forall|i: int| 0 <= i < insert_pos(m, key) implies str_lt(#[trigger] m[i].0, key) by {
            if i > 0 {
                assert(m[i] == m.drop_first()[i - 1]);
            }
        }
    }
}

/// How many samples the metric charts keep.
pub const HISTORY_LIMIT: usize = 500;

/// A history after one more sample: when it already holds `HISTORY_LIMIT` samples the
/// oldest is dropped first, then the sample is appended.
pub open spec fn history_push<T>(h: Seq<T>, x: T) -> Seq<T> {
    if h.len() >= 500 {
        h.drop_first().push(x)
    } else {
        h.push(x)
    }
}

/// The history after each of `xs` in turn, starting empty.
pub open spec fn history_after<T>(xs: Seq<T>) -> Seq<T>
    decreases xs.len(),
{
    if xs.len() == 0 {
        Seq::empty()
    } else {
        history_push(history_after(xs.drop_last()), xs.last())
    }
}

/// A history fed one sample at a time from empty holds exactly the last
/// `HISTORY_LIMIT` samples (all of them while there are fewer), oldest first.
pub proof fn history_holds_latest<T>(xs: Seq<T>)
    ensures
        history_after(xs) == (if xs.len() > 500 { xs.subrange(xs.len() - 500, xs.len() as int) } else { xs }),
    decreases xs.len(),
{
    if xs.len() > 0 {
        let d = xs.drop_last();
        history_holds_latest(d);
        assert(xs == d.push(xs.last()));
        if d.len() >= 500 {
            assert(d.subrange(d.len() - 500, d.len() as int).drop_first().push(xs.last())
                =~= xs.subrange(xs.len() - 500, xs.len() as int));
        }
    }
}

/// The most recent samples of a metric, oldest first, at most `HISTORY_LIMIT` of them.
pub struct History<T> {
    items: VecDeque<T>,
}

impl<T> History<T> {
    /// The samples held, oldest first.
    pub closed spec fn view(&self) -> Seq<T> {
        self.items@
    }

    /// An empty history.
    pub fn new() -> (h: History<T>)
        ensures
            h.view() == Seq::<T>::empty(),
    {
        History { items: VecDeque::with_capacity(HISTORY_LIMIT) }
    }

    /// Adds a sample (see `history_push`).
    pub fn push(&mut self, x: T)
        requires
            old(self).view().len() <= 500,
        ensures
            final(self).view() == history_push(old(self).view(), x),
            final(self).view().len() <= 500,
    {
        if self.items.len() >= HISTORY_LIMIT {
            let _ = self.items.pop_front();
        }
        self.items.push_back(x);
    }

    /// The samples held, oldest first.
    pub fn items(&self) -> (r: &VecDeque<T>)
        ensures
            r@ == self.view(),
    {
        &self.items
    }
}

/// The color of a line in the log list: red for an error line, grey otherwise.
pub open spec fn line_color(error: bool) -> Seq<char> {
    if error {
        "red"@
    } else {
        "#d1d5db"@
    }
}

/// The markup of one line in the log list.
pub open spec fn log_entry_markup(time: Seq<char>, file: Seq<char>, line: Seq<char>, error: bool) -> Seq<char> {
    "<div style='color: "@ + line_color(error)
        + "; font-family: monospace; border-bottom: 1px solid #222;'>\n                    <span style='opacity: 0.5;'>["@
        + time + "]</span> <b>"@ + file + "</b>: "@ + line + "\n                </div>"@
}

/// The markup of one line in the log list: its time, its file and the line, colored by
/// whether it is an error line.
pub fn log_entry_html(time: &str, file: &str, line: &str, error: bool) -> (r: String)
    ensures
        r@ == log_entry_markup(time@, file@, line@, error),
{
    let color = if error { "red" } else { "#d1d5db" };
    let mut r = String::new();
    push_str(&mut r, "<div style='color: ");
    push_str(&mut r, color);
    push_str(&mut r, "; font-family: monospace; border-bottom: 1px solid #222;'>\n                    <span style='opacity: 0.5;'>[");
    push_str(&mut r, time);
    push_str(&mut r, "]</span> <b>");
    push_str(&mut r, file);
    push_str(&mut r, "</b>: ");
    push_str(&mut r, line);
    push_str(&mut r, "\n                </div>");
    assert(r@ =~= log_entry_markup(time@, file@, line@, error));
    r
}

/// The greeting the dashboard library shows for `name`.
pub open spec fn greeting_text(name: Seq<char>) -> Seq<char> {
    "Hello from the Log Analyzer WASM, "@ + name + "!"@
}

/// The greeting the dashboard library shows for `name`.
pub fn greeting(name: &str) -> (r: String)
    ensures
        r@ == greeting_text(name@),
{
    let mut r = String::new();
    push_str(&mut r, "Hello from the Log Analyzer WASM, ");
    push_str(&mut r, name);
    push_str(&mut r, "!");
    assert(r@ =~= greeting_text(name@));
    r
}

} // verus!
