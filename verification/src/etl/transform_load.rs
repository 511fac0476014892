//! The transform and load stages: each extracted line is timestamped, grouped by minute
//! and file, classified as an error or not, and turned into an update for the dashboard.
use vstd::prelude::*;
use std::collections::HashMap;
use crate::etl::LogEvent;
use crate::etl::parser::{
    LogConfig, UtcTime, format_views, dynamic_parse, slicing_fails, slicing_would_fail,
    parsed_with_dynamic_format, string_views,
};
use crate::helper::{minute_bucket, minute_start, get_ist_time, ist_clock};
use crate::text::{to_lowercase, unicode_lowercase, contains, contains_seq};

verus! {

broadcast use vstd::std_specs::hash::group_hash_axioms;

/// The lines of one file that fell into one minute.
pub struct FileLines {
    pub file: String,
    pub lines: Vec<String>,
}

/// Lines grouped by file: the lines of each file, in arrival order.
pub open spec fn files_view(v: Seq<FileLines>) -> Map<Seq<char>, Seq<Seq<char>>>
    decreases v.len(),
{
    if v.len() == 0 {
        Map::empty()
    } else {
        files_view(v.drop_last()).insert(v.last().file@, string_views(v.last().lines@))
    }
}

/// No file occurs twice.
pub open spec fn files_unique(v: Seq<FileLines>) -> bool {
    forall|i: int, j: int| 0 <= i < j < v.len() ==> v[i].file@ != v[j].file@
}

proof fn lemma_files_view_dom(v: Seq<FileLines>, f: Seq<char>)
    ensures
        files_view(v).contains_key(f) <==> exists|i: int| 0 <= i < v.len() && v[i].file@ == f,
    decreases v.len(),
{
    if v.len() > 0 {
        lemma_files_view_dom(v.drop_last(), f);
        if files_view(v.drop_last()).contains_key(f) {
            let i = choose|i: int| 0 <= i < v.drop_last().len() && v.drop_last()[i].file@ == f;
            assert(v[i].file@ == f);
        }
        if exists|i: int| 0 <= i < v.len() && v[i].file@ == f {
            let i = choose|i: int| 0 <= i < v.len() && v[i].file@ == f;
            if i < v.len() - 1 {
                assert(v.drop_last()[i].file@ == f);
            }
        }
    }
}

proof fn lemma_files_view_at(v: Seq<FileLines>, i: int)
    requires
        files_unique(v),
        0 <= i < v.len(),
    ensures
        files_view(v).contains_key(v[i].file@),
        files_view(v)[v[i].file@] == string_views(v[i].lines@),
    decreases v.len(),
{
    if i < v.len() - 1 {
        lemma_files_view_at(v.drop_last(), i);
        assert(v.drop_last()[i] == v[i]);
    }
}

proof fn lemma_files_view_update(v: Seq<FileLines>, i: int, x: FileLines)
    requires
        files_unique(v),
        0 <= i < v.len(),
        x.file@ == v[i].file@,
    ensures
        files_unique(v.update(i, x)),
        files_view(v.update(i, x)) == files_view(v).insert(x.file@, string_views(x.lines@)),
    decreases v.len(),
{
    let w = v.update(i, x);
    if i == v.len() - 1 {
        assert(w.drop_last() == v.drop_last());
        assert(files_view(w) == files_view(v.drop_last()).insert(x.file@, string_views(x.lines@)));
        assert(files_view(v) == files_view(v.drop_last()).insert(v.last().file@, string_views(v.last().lines@)));
        assert(files_view(w) =~= files_view(v).insert(x.file@, string_views(x.lines@)));
    } else {
        lemma_files_view_update(v.drop_last(), i, x);
        assert(w.drop_last() == v.drop_last().update(i, x));
        assert(w.last() == v.last());
        assert(v.last().file@ != x.file@);
        assert(files_view(w) =~= files_view(v).insert(x.file@, string_views(x.lines@)));
    }
}

/// Log lines grouped by the minute of their timestamp and then by file.
pub struct GroupedLogs {
    buckets: HashMap<i64, Vec<FileLines>>,
}

impl GroupedLogs {
    /// For each minute (the instant, in seconds, at which it starts), the lines of each
    /// file in arrival order.
    pub closed spec fn view(&self) -> Map<i64, Map<Seq<char>, Seq<Seq<char>>>> {
        self.buckets@.map_values(|v: Vec<FileLines>| files_view(v@))
    }

    /// No file occurs twice within a minute.
    pub closed spec fn wf(&self) -> bool {
        forall|k: i64| #[trigger] self.buckets@.contains_key(k) ==> files_unique(self.buckets@[k]@)
    }

    /// No lines yet.
    pub fn new() -> (g: GroupedLogs)
        ensures
            g.wf(),
            g.view() == Map::<i64, Map<Seq<char>, Seq<Seq<char>>>>::empty(),
    {
        let g = GroupedLogs { buckets: HashMap::new() };
        assert(g.view() =~= Map::<i64, Map<Seq<char>, Seq<Seq<char>>>>::empty());
        g
    }

    /// The lines of `file` within the minute `bucket`, empty where there are none.
    pub open spec fn lines_of(
        m: Map<i64, Map<Seq<char>, Seq<Seq<char>>>>,
        bucket: i64,
        file: Seq<char>,
    ) -> Seq<Seq<char>> {
        if m.contains_key(bucket) && m[bucket].contains_key(file) {
            m[bucket][file]
        } else {
            Seq::empty()
        }
    }

    /// The files of the minute `bucket`, empty where there are none.
    pub open spec fn files_at(m: Map<i64, Map<Seq<char>, Seq<Seq<char>>>>, bucket: i64) -> Map<
        Seq<char>,
        Seq<Seq<char>>,
    > {
        if m.contains_key(bucket) {
            m[bucket]
        } else {
            Map::empty()
        }
    }

    /// The lines of `file` within the minute `bucket`, in arrival order.
    pub fn lines(&self, bucket: i64, file: &String) -> (r: Vec<String>)
        requires
            self.wf(),
        ensures
            string_views(r@) == Self::lines_of(self.view(), bucket, file@),
    {
        match self.buckets.get(&bucket) {
            None => {
                let out: Vec<String> = Vec::new();
                assert(string_views(out@) =~= Seq::<Seq<char>>::empty());
                out
            },
            Some(files) => {
                assert(self.buckets@.contains_key(bucket) && self.buckets@[bucket] == *files);
                assert(files_unique(files@));
                assert(self.view()[bucket] == files_view(files@));
                proof {
                    lemma_files_view_dom(files@, file@);
                }
                let mut i: usize = 0;
                while i < files.len()
                    invariant
                        i <= files.len(),
                        files_unique(files@),
                        self.view().contains_key(bucket),
                        self.view()[bucket] == files_view(files@),
                        files_view(files@).contains_key(file@) <==> exists|j: int| 0 <= j < files@.len() && files@[j].file@ == file@,
                        forall|j: int| 0 <= j < i ==> files@[j].file@ != file@,
                    decreases files.len() - i,
                {
                    if files[i].file == *file {
                        proof {
                            lemma_files_view_at(files@, i as int);
                        }
                        let mut out: Vec<String> = Vec::new();
                        let mut k: usize = 0;
                        while k < files[i].lines.len()
                            invariant
                                i < files.len(),
                                k <= files@[i as int].lines.len(),
                                out@ == files@[i as int].lines@.take(k as int),
                            decreases files@[i as int].lines.len() - k,
                        {
                            out.push(files[i].lines[k].clone());
                            assert(files@[i as int].lines@.take(k + 1) == files@[i as int].lines@.take(k as int).push(files@[i as int].lines@[k as int]));
                            k = k + 1;
                        }
                        assert(files@[i as int].lines@.take(k as int) == files@[i as int].lines@);
                        assert(out@ == files@[i as int].lines@);
                        return out;
                    }
                    i = i + 1;
                }
                let out: Vec<String> = Vec::new();
                assert(string_views(out@) =~= Seq::<Seq<char>>::empty());
                out
            },
        }
    }

    /// Appends `line` to the lines of `file` within the minute `bucket`.
    pub fn push(&mut self, bucket: i64, file: &String, line: String)
        requires
            old(self).wf(),
        ensures
            final(self).wf(),
            final(self).view() == old(self).view().insert(
                bucket,
                Self::files_at(old(self).view(), bucket).insert(
                    file@,
                    Self::lines_of(old(self).view(), bucket, file@).push(line@),
                ),
            ),
    {
        let ghost old_view = self.view();
        let ghost old_buckets = self.buckets@;
        let mut files: Vec<FileLines> = match self.buckets.remove(&bucket) {
            Some(v) => v,
            None => Vec::new(),
        };
        proof {
            if old_buckets.contains_key(bucket) {
                assert(files@ == old_buckets[bucket]@);
                assert(old_view[bucket] == files_view(files@));
            } else {
                assert(files_view(files@) =~= Map::<Seq<char>, Seq<Seq<char>>>::empty());
            }
        }
        let ghost before = files@;
        assert(files_unique(before));
        assert(files_view(before) == Self::files_at(old_view, bucket));
        let mut i: usize = 0;
        while i < files.len() && !(files[i].file == *file)
            invariant
                files@ == before,
                i <= files.len(),
                forall|j: int| 0 <= j < i ==> files@[j].file@ != file@,
            decreases files.len() - i,
        {
            i = i + 1;
        }
        proof {
            lemma_files_view_dom(before, file@);
        }
        if i < files.len() {
            proof {
                lemma_files_view_at(before, i as int);
            }
            let mut entry = files.remove(i);
            let ghost old_lines = entry.lines@;
            entry.lines.push(line);
            assert(string_views(entry.lines@) =~= string_views(old_lines).push(line@));
            assert(entry.file@ == file@);
            let ghost new_entry = entry;
            files.insert(i, entry);
            assert(files@ =~= before.update(i as int, new_entry));
            proof {
                lemma_files_view_update(before, i as int, new_entry);
            }
        } else {
            assert(!files_view(before).contains_key(file@));
            let mut lines: Vec<String> = Vec::new();
            lines.push(line);
            let entry = FileLines { file: file.clone(), lines };
            assert(string_views(entry.lines@) =~= seq![line@]);
            assert(seq![line@] =~= Seq::<Seq<char>>::empty().push(line@));
            files.push(entry);
            assert(files@.drop_last() == before);
            assert(files_unique(files@));
        }
        let ghost new_files = files@;
        self.buckets.insert(bucket, files);
        assert(self.view() =~= old_view.insert(bucket, files_view(new_files)));
    }
}

/// What the dashboard is sent for one timestamped line: the time of the line as India
/// Standard Time `HH:MM:SS`, its file, the line, and whether it reports an error.
pub struct LogUpdate {
    pub time: String,
    pub file: String,
    pub line: String,
    pub error: bool,
}

/// The result of analyzing one event.
pub enum EtlOutcome {
    /// The line was timestamped and grouped; this update goes to the dashboard.
    Emit(LogUpdate),
    /// No format found a timestamp in the line (or the line was blank): nothing is sent.
    Skip,
    /// The search would have had to slice reversed brackets (see `slicing_fails`), so the
    /// pipeline cannot go on with this line: it stops.
    Halt,
}

/// The indicators, lower-cased.
pub open spec fn lowered(inds: Seq<Seq<char>>) -> Seq<Seq<char>> {
    inds.map_values(|s: Seq<char>| unicode_lowercase(s))
}

/// Whether a line reports an error: its lower-cased text contains one of the (lower-cased)
/// indicators.
pub open spec fn is_error_line(line: Seq<char>, lower_inds: Seq<Seq<char>>) -> bool {
    exists|i: int| 0 <= i < lower_inds.len() && contains_seq(unicode_lowercase(line), #[trigger] lower_inds[i])
}

/// A line reports an error exactly when one of the lower-cased indicators appears, as a
/// contiguous run of characters at any position, in the lower-cased line.
pub proof fn error_indicator_found_anywhere(line: Seq<char>, lower_inds: Seq<Seq<char>>)
    ensures
        is_error_line(line, lower_inds) <==> exists|i: int, j: int|
            0 <= i < lower_inds.len() && 0 <= j && j + lower_inds[i].len() <= unicode_lowercase(line).len()
                && #[trigger] unicode_lowercase(line).subrange(j, j + lower_inds[i].len()) == #[trigger] lower_inds[i],
{
    let l = unicode_lowercase(line);
    if is_error_line(line, lower_inds) {
        let i = choose|i: int| 0 <= i < lower_inds.len() && contains_seq(l, #[trigger] lower_inds[i]);
        let j = choose|j: int| crate::text::occurs_at(l, lower_inds[i], j);
        assert(l.subrange(j, j + lower_inds[i].len()) == lower_inds[i]);
    }
    if exists|i: int, j: int|
        0 <= i < lower_inds.len() && 0 <= j && j + lower_inds[i].len() <= l.len()
            && #[trigger] l.subrange(j, j + lower_inds[i].len()) == #[trigger] lower_inds[i] {
        let (i, j) = choose|i: int, j: int|
            0 <= i < lower_inds.len() && 0 <= j && j + lower_inds[i].len() <= l.len()
                && #[trigger] l.subrange(j, j + lower_inds[i].len()) == #[trigger] lower_inds[i];
        assert(crate::text::occurs_at(l, lower_inds[i], j));
        assert(contains_seq(l, lower_inds[i]));
    }
}

/// The state of the transform and load stages: the configuration, the lower-cased error
/// indicators, and the lines grouped so far.
pub struct EtlState {
    config: LogConfig,
    lower_indicators: Vec<String>,
    groups: GroupedLogs,
}

/// What analyzing the trimmed line `line` from `file` does, from the state `pre` to the
/// state `post` with the outcome `r`.
pub open spec fn analysis_of(pre: EtlState, file: Seq<char>, line: Seq<char>, post: EtlState, r: EtlOutcome) -> bool {
    let fmts = pre.formats();
    if slicing_fails(line, fmts) {
        r is Halt && post.groups() == pre.groups()
    } else {
        match dynamic_parse(line, fmts) {
            None => r is Skip && post.groups() == pre.groups(),
            Some(p) => {
                let b = minute_start(p.0.0 as int) as i64;
                &&& r matches EtlOutcome::Emit(u) && u.time@ == ist_clock(p.0.0 as int, p.0.1 as int)
                    && u.file@ == file && u.line@ == line && u.error == is_error_line(line, pre.indicators())
                &&& post.groups() == pre.groups().insert(
                    b,
                    GroupedLogs::files_at(pre.groups(), b).insert(
                        file,
                        GroupedLogs::lines_of(pre.groups(), b, file).push(p.1),
                    ),
                )
            },
        }
    }
}

impl EtlState {
    /// The configured date formats, in order.
    pub closed spec fn formats(&self) -> Seq<Seq<char>> {
        format_views(self.config.date_formats@)
    }

    /// The configured error indicators, lower-cased.
    pub closed spec fn indicators(&self) -> Seq<Seq<char>> {
        string_views(self.lower_indicators@)
    }

    /// The lines grouped so far, by minute and file.
    pub closed spec fn groups(&self) -> Map<i64, Map<Seq<char>, Seq<Seq<char>>>> {
        self.groups.view()
    }

    pub closed spec fn wf(&self) -> bool {
        self.groups.wf()
    }

    /// The lines grouped so far.
    pub fn grouped(&self) -> (r: &GroupedLogs)
        ensures
            r.view() == self.groups(),
            self.wf() ==> r.wf(),
    {
        &self.groups
    }

    /// A state for `config` with no lines grouped yet.
    pub fn new(config: LogConfig) -> (s: EtlState)
        ensures
            s.wf(),
            s.formats() == format_views(config.date_formats@),
            s.indicators() == lowered(string_views(config.error_indicators@)),
            forall|k: int| 0 <= k < config.error_indicators@.len() && config.error_indicators@[k]@.len() == 0
                ==> #[trigger] s.indicators()[k] == Seq::<char>::empty(),
            s.groups() == Map::<i64, Map<Seq<char>, Seq<Seq<char>>>>::empty(),
    {
        let mut lower: Vec<String> = Vec::new();
        let mut i: usize = 0;
        while i < config.error_indicators.len()
            invariant
                i <= config.error_indicators.len(),
                string_views(lower@) == lowered(string_views(config.error_indicators@)).take(i as int),
                forall|k: int| 0 <= k < i && config.error_indicators@[k]@.len() == 0
                    ==> #[trigger] lower@[k]@ == Seq::<char>::empty(),
            decreases config.error_indicators.len() - i,
        {
            let l = to_lowercase(config.error_indicators[i].as_str());
            assert(string_views(config.error_indicators@)[i as int] == config.error_indicators@[i as int]@);
            assert(lowered(string_views(config.error_indicators@))[i as int] == l@);
            let ghost prev = lower@;
            lower.push(l);
            assert(lower@ == prev.push(l));
            assert(string_views(lower@) =~= string_views(prev).push(l@));
            assert(string_views(prev).push(l@) =~= lowered(string_views(config.error_indicators@)).take(i + 1));
            i = i + 1;
        }
        assert(lowered(string_views(config.error_indicators@)).take(i as int) =~= lowered(string_views(config.error_indicators@)));
        assert forall|k: int| 0 <= k < config.error_indicators@.len() && config.error_indicators@[k]@.len() == 0
            implies #[trigger] string_views(lower@)[k] == Seq::<char>::empty() by {
            assert(string_views(lower@)[k] == lower@[k]@);
        }
        EtlState { config, lower_indicators: lower, groups: GroupedLogs::new() }
    }

    /// Whether `line` reports an error: its lower-cased text contains one of the
    /// lower-cased indicators.
    pub fn is_error(&self, line: &String) -> (r: bool)
        ensures
            r == is_error_line(line@, self.indicators()),
    {
        let lower = to_lowercase(line.as_str());
        let mut i: usize = 0;
        while i < self.lower_indicators.len()
            invariant
                i <= self.lower_indicators.len(),
                lower@ == unicode_lowercase(line@),
                forall|j: int| 0 <= j < i ==> !contains_seq(unicode_lowercase(line@), #[trigger] self.indicators()[j]),
            decreases self.lower_indicators.len() - i,
        {
            if contains(lower.as_str(), self.lower_indicators[i].as_str()) {
                assert(contains_seq(unicode_lowercase(line@), self.indicators()[i as int]));
                return true;
            }
            i = i + 1;
        }
        false
    }

    /// Loads one timestamped line: `raw_line` is grouped under the minute of `dt` and
    /// the file `file`, and the update carries the time of `dt` as India Standard Time,
    /// the file, `line`, and whether `line` reports an error.
    pub fn load(&mut self, file: &String, line: &String, dt: UtcTime, raw_line: String) -> (u: LogUpdate)
        requires
            old(self).wf(),
            -0x1000_0000_0000 < dt.secs < 0x1000_0000_0000,
        ensures
            final(self).wf(),
            final(self).formats() == old(self).formats(),
            final(self).indicators() == old(self).indicators(),
            u.time@ == ist_clock(dt.secs as int, dt.nanos as int),
            u.file@ == file@,
            u.line@ == line@,
            u.error == is_error_line(line@, old(self).indicators()),
            ({
                let b = minute_start(dt.secs as int) as i64;
                final(self).groups() == old(self).groups().insert(
                    b,
                    GroupedLogs::files_at(old(self).groups(), b).insert(
                        file@,
                        GroupedLogs::lines_of(old(self).groups(), b, file@).push(raw_line@),
                    ),
                )
            }),
    {
        let bucket = minute_bucket(dt);
        self.groups.push(bucket.secs, file, raw_line);
        let time = get_ist_time(dt);
        let error = self.is_error(line);
        LogUpdate { time, file: file.clone(), line: line.clone(), error }
    }

    /// Analyzes one event: its line is timestamped with the configured formats (see
    /// `parsed_with_dynamic_format`); a line with a timestamp is grouped under the minute
    /// of that timestamp and its file, and gives an update with the time as India Standard
    /// Time, the file, the line and whether it reports an error.
    pub fn analyze_groups(&mut self, event: &LogEvent) -> (r: EtlOutcome)
        requires
            old(self).wf(),
        ensures
            final(self).wf(),
            final(self).formats() == old(self).formats(),
            final(self).indicators() == old(self).indicators(),
            analysis_of(*old(self), event.file_view(), event.line_view(), *final(self), r),
    {
        let line = event.line();
        if slicing_would_fail(line.as_str(), &self.config) {
            return EtlOutcome::Halt;
        }
        match parsed_with_dynamic_format(line.as_str(), &self.config) {
            None => EtlOutcome::Skip,
            Some((dt, raw_line)) => EtlOutcome::Emit(self.load(event.file(), line, dt, raw_line)),
        }
    }
}

} // verus!
