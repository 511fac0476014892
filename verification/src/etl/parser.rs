//! Finding a timestamp in a log line with the configured date formats.
use vstd::prelude::*;
use crate::text::{chars_of, find_char, first_index, owned, string_of_range, trim, trimmed};

verus! {

/// One date format to try on log lines (a chrono `strftime`-style pattern).
pub struct LogMatcher {
    pub format: String,
}

/// What the analyzer reads from its configuration: the date formats to try, in order,
/// and the words that mark a line as an error.
pub struct LogConfig {
    pub date_formats: Vec<LogMatcher>,
    pub error_indicators: Vec<String>,
}

/// An instant in UTC: whole seconds since the Unix epoch and the sub-second part in
/// nanoseconds (at or above one second only inside a leap second).
#[derive(Clone, Copy, Debug, PartialEq, Eq, Structural)]
pub struct UtcTime {
    pub secs: i64,
    pub nanos: u32,
}

/// Trusted: chrono's `ParseError`, the error `parse_from_str` reports; it is only carried
/// through and never looked into.
#[verifier::external_type_specification]
#[verifier::external_body]
pub struct ExParseError(chrono::ParseError);

/// The instant that chrono's `DateTime::parse_from_str` reads from `s` with the format
/// `fmt`, as UTC seconds and sub-second nanoseconds, or `None` where it reports an error.
pub uninterp spec fn chrono_parse_instant(s: Seq<char>, fmt: Seq<char>) -> Option<(i64, u32)>;

/// Trusted: chrono's `DateTime::parse_from_str(s, fmt)`. On success the result is the
/// parsed instant taken as UTC seconds (`timestamp`) and sub-second nanoseconds
/// (`timestamp_subsec_nanos`); chrono keeps every `DateTime` within years -262143..=262142,
/// so the seconds lie well inside `(-2^44, 2^44)`, and its nanosecond field is below two
/// seconds. What chrono accepts is only named here, as a function of `s` and `fmt`.
#[verifier::external_body]
fn parse_from_str(s: &str, fmt: &str) -> (r: Result<(i64, u32), chrono::ParseError>)
    ensures
        match r {
            Ok(v) => chrono_parse_instant(s@, fmt@) == Some(v),
            Err(_) => chrono_parse_instant(s@, fmt@) is None,
        },
        r matches Ok(v) ==> -0x1000_0000_0000 < v.0 < 0x1000_0000_0000 && v.1 < 2_000_000_000,
{
    match chrono::DateTime::parse_from_str(s, fmt) {
        Ok(dt) => Ok((dt.timestamp(), dt.timestamp_subsec_nanos())),
        Err(e) => Err(e),
    }
}

/// Whether a value chrono produced lies in its range (see `parse_from_str`).
pub open spec fn instant_in_range(v: (i64, u32)) -> bool {
    -0x1000_0000_0000 < v.0 < 0x1000_0000_0000 && v.1 < 2_000_000_000
}

/// The characters that separate words when a line is searched word by word.
pub open spec fn is_word_separator(c: char) -> bool {
    c == ' ' || c == '"' || c == '\''
}

/// The characters stripped from both ends of each word.
pub open spec fn is_word_punct(c: char) -> bool {
    c == ',' || c == ':' || c == '{' || c == '}'
}

/// The pieces of `s` between separators, as `str::split` yields them (empty pieces
/// included; an empty string gives one empty piece).
pub open spec fn split_pieces(s: Seq<char>) -> Seq<Seq<char>>
    decreases s.len(),
{
    if s.len() == 0 {
        seq![Seq::<char>::empty()]
    } else {
        let p = split_pieces(s.drop_last());
        if is_word_separator(s.last()) {
            p.push(Seq::<char>::empty())
        } else {
            p.update(p.len() - 1, p.last().push(s.last()))
        }
    }
}

/// `s` without leading punctuation.
pub open spec fn strip_start(s: Seq<char>) -> Seq<char>
    decreases s.len(),
{
    if s.len() > 0 && is_word_punct(s[0]) {
        strip_start(s.drop_first())
    } else {
        s
    }
}

/// `s` without trailing punctuation.
pub open spec fn strip_end(s: Seq<char>) -> Seq<char>
    decreases s.len(),
{
    if s.len() > 0 && is_word_punct(s.last()) {
        strip_end(s.drop_last())
    } else {
        s
    }
}

/// `s` with punctuation stripped from both ends, as `str::trim_matches` leaves it.
pub open spec fn stripped(s: Seq<char>) -> Seq<char> {
    strip_end(strip_start(s))
}

/// The stripped pieces that are not empty, in order.
pub open spec fn cleaned_words(pieces: Seq<Seq<char>>) -> Seq<Seq<char>>
    decreases pieces.len(),
{
    if pieces.len() == 0 {
        seq![]
    } else {
        let rest = cleaned_words(pieces.drop_last());
        let w = stripped(pieces.last());
        if w.len() == 0 {
            rest
        } else {
            rest.push(w)
        }
    }
}

/// The words of a line that are tried as timestamps.
pub open spec fn line_words(s: Seq<char>) -> Seq<Seq<char>> {
    cleaned_words(split_pieces(s))
}

/// Where the first `[` and the first `]` of a line stand, as the range from the `[` to
/// just past the `]`.
pub open spec fn bracket_range(s: Seq<char>) -> Option<(int, int)> {
    match (first_index(s, '['), first_index(s, ']')) {
        (Some(a), Some(b)) => Some((a, b + 1)),
        _ => None,
    }
}

/// Whether the first `]` stands more than one character before the first `[`, so that
/// the range between them cannot be sliced.
pub open spec fn brackets_reversed(s: Seq<char>) -> bool {
    bracket_range(s) matches Some(r) && r.1 < r.0
}

/// The strings tried as timestamps for each format, in order: the whole line, then the
/// text from the first `[` through the first `]` (where both occur), then each word.
pub open spec fn timestamp_candidates(s: Seq<char>) -> Seq<Seq<char>> {
    seq![s] + (match bracket_range(s) {
        Some(r) => seq![s.subrange(r.0, r.1)],
        None => Seq::<Seq<char>>::empty(),
    }) + line_words(s)
}

/// The first candidate that chrono reads with the format `fmt`, and what it reads.
pub open spec fn first_hit(cands: Seq<Seq<char>>, fmt: Seq<char>) -> Option<(i64, u32)>
    decreases cands.len(),
{
    if cands.len() == 0 {
        None
    } else if chrono_parse_instant(cands[0], fmt) is Some {
        chrono_parse_instant(cands[0], fmt)
    } else {
        first_hit(cands.drop_first(), fmt)
    }
}

/// The first hit over the formats in order, each format trying every candidate before
/// the next format is tried.
pub open spec fn first_match(cands: Seq<Seq<char>>, fmts: Seq<Seq<char>>) -> Option<(i64, u32)>
    decreases fmts.len(),
{
    if fmts.len() == 0 {
        None
    } else {
        match first_hit(cands, fmts[0]) {
            Some(v) => Some(v),
            None => first_match(cands, fmts.drop_first()),
        }
    }
}

/// The formats of a configuration, in order.
pub open spec fn format_views(ms: Seq<LogMatcher>) -> Seq<Seq<char>> {
    ms.map_values(|m: LogMatcher| m.format@)
}

/// What `parsed_with_dynamic_format` returns for a line: `None` for a blank line, else
/// the first match over the candidates of the trimmed line, with the trimmed line.
pub open spec fn dynamic_parse(line: Seq<char>, fmts: Seq<Seq<char>>) -> Option<((i64, u32), Seq<char>)> {
    let t = trimmed(line);
    if t.len() == 0 {
        None
    } else {
        match first_match(timestamp_candidates(t), fmts) {
            Some(v) => Some((v, t)),
            None => None,
        }
    }
}

/// Whether the search would have to slice reversed brackets: the trimmed line is not
/// blank, its brackets are reversed, and the first format does not read the whole line.
pub open spec fn slicing_fails(line: Seq<char>, fmts: Seq<Seq<char>>) -> bool {
    let t = trimmed(line);
    &&& t.len() > 0
    &&& fmts.len() > 0
    &&& brackets_reversed(t)
    &&& chrono_parse_instant(t, fmts[0]) is None
}

proof fn lemma_first_hit_step(s: Seq<Seq<char>>, k: int, f: Seq<char>)
    requires
        0 <= k < s.len(),
        chrono_parse_instant(s[k], f) is None,
    ensures
        first_hit(s.skip(k), f) == first_hit(s.skip(k + 1), f),
{
    assert(s.skip(k)[0] == s[k]);
    assert(s.skip(k).drop_first() == s.skip(k + 1));
}

proof fn lemma_strip_start_skip(s: Seq<char>, i: int)
    requires
        0 <= i <= s.len(),
        forall|k: int| 0 <= k < i ==> is_word_punct(#[trigger] s[k]),
    ensures
        strip_start(s) == strip_start(s.subrange(i, s.len() as int)),
    decreases i,
{
    if i > 0 {
        lemma_strip_start_skip(s, i - 1);
        let t = s.subrange(i - 1, s.len() as int);
        assert(t.drop_first() == s.subrange(i, s.len() as int));
        assert(t[0] == s[i - 1]);
    } else {
        assert(s.subrange(0, s.len() as int) == s);
    }
}

proof fn lemma_strip_end_cut(s: Seq<char>, j: int)
    requires
        0 <= j <= s.len(),
        forall|k: int| j <= k < s.len() ==> is_word_punct(#[trigger] s[k]),
    ensures
        strip_end(s) == strip_end(s.subrange(0, j)),
    decreases s.len() - j,
{
    if j < s.len() {
        lemma_strip_end_cut(s, j + 1);
        let t = s.subrange(0, j + 1);
        assert(t.drop_last() == s.subrange(0, j));
        assert(t.last() == s[j]);
    } else {
        assert(s.subrange(0, s.len() as int) == s);
    }
}

/// `v` with punctuation stripped from both ends.
fn strip_word(v: &Vec<char>) -> (r: String)
    ensures
        r@ == stripped(v@),
{
    let n = v.len();
    let mut i: usize = 0;
    while i < n && (v[i] == ',' || v[i] == ':' || v[i] == '{' || v[i] == '}')
        invariant
            i <= n == v.len(),
            forall|k: int| 0 <= k < i ==> is_word_punct(#[trigger] v@[k]),
        decreases n - i,
    {
        i = i + 1;
    }
    proof {
        lemma_strip_start_skip(v@, i as int);
    }
    let ghost rest = v@.subrange(i as int, n as int);
    assert(strip_start(rest) == rest) by {
        if rest.len() > 0 {
            assert(rest[0] == v@[i as int]);
        }
    }
    let mut j: usize = n;
    while j > i && (v[j - 1] == ',' || v[j - 1] == ':' || v[j - 1] == '{' || v[j - 1] == '}')
        invariant
            i <= j <= n == v.len(),
            rest == v@.subrange(i as int, n as int),
            forall|k: int| j - i <= k < rest.len() ==> is_word_punct(#[trigger] rest[k]),
        decreases j,
    {
        j = j - 1;
    }
    proof {
        lemma_strip_end_cut(rest, j - i);
        let t = rest.subrange(0, j - i);
        assert(t == v@.subrange(i as int, j as int));
        if t.len() > 0 {
            assert(t.last() == v@[j - 1]);
        }
    }
    string_of_range(v, i, j)
}

/// The views of a list of character vectors.
pub open spec fn views_of(v: Seq<Vec<char>>) -> Seq<Seq<char>> {
    v.map_values(|p: Vec<char>| p@)
}

/// The views of a list of strings.
pub open spec fn string_views(v: Seq<String>) -> Seq<Seq<char>> {
    v.map_values(|p: String| p@)
}

/// The pieces of `v` between word separators.
fn split_words(v: &Vec<char>) -> (r: Vec<Vec<char>>)
    ensures
        views_of(r@) == split_pieces(v@),
{
    let mut done: Vec<Vec<char>> = Vec::new();
    let mut cur: Vec<char> = Vec::new();
    let mut i: usize = 0;
    assert(v@.take(0) =~= Seq::<char>::empty());
    assert(views_of(done@).push(cur@) =~= split_pieces(v@.take(0)));
    while i < v.len()
        invariant
            i <= v.len(),
            views_of(done@).push(cur@) == split_pieces(v@.take(i as int)),
        decreases v.len() - i,
    {
        let c = v[i];
        let ghost before = split_pieces(v@.take(i as int));
        assert(v@.take(i + 1).drop_last() == v@.take(i as int));
        assert(v@.take(i + 1).last() == c);
        if c == ' ' || c == '"' || c == '\'' {
            let piece = cur;
            done.push(piece);
            cur = Vec::new();
            assert(views_of(done@) =~= before);
            assert(views_of(done@).push(cur@) =~= before.push(Seq::<char>::empty()));
        } else {
            cur.push(c);
            assert(views_of(done@).push(cur@) =~= before.update(before.len() - 1, before.last().push(c)));
        }
        i = i + 1;
    }
    assert(v@.take(v@.len() as int) == v@);
    done.push(cur);
    assert(views_of(done@) =~= split_pieces(v@));
    done
}

/// The words of a line to try as timestamps, in order.
pub fn words_of(v: &Vec<char>) -> (r: Vec<String>)
    ensures
        string_views(r@) == line_words(v@),
{
    let pieces = split_words(v);
    let ghost ps = split_pieces(v@);
    let mut out: Vec<String> = Vec::new();
    let mut k: usize = 0;
    assert(ps.take(0) =~= Seq::<Seq<char>>::empty());
    assert(string_views(out@) =~= cleaned_words(ps.take(0)));
    while k < pieces.len()
        invariant
            k <= pieces.len(),
            ps.len() == pieces.len(),
            views_of(pieces@) == ps,
            string_views(out@) == cleaned_words(ps.take(k as int)),
        decreases pieces.len() - k,
    {
        assert(ps.take(k + 1).drop_last() == ps.take(k as int));
        assert(ps.take(k + 1).last() == ps[k as int]);
        assert(ps[k as int] == pieces@[k as int]@);
        let w = strip_word(&pieces[k]);
        if !w.as_str().is_empty() {
            out.push(w);
        }
        assert(string_views(out@) =~= cleaned_words(ps.take(k + 1)));
        k = k + 1;
    }
    assert(ps.take(ps.len() as int) == ps);
    out
}

/// The strings tried as timestamps for each format (see `timestamp_candidates`): the
/// line itself, the text from its first `[` through its first `]`, then its words.
pub fn timestamp_candidates_of(t: &str) -> (r: Vec<String>)
    requires
        !brackets_reversed(t@),
    ensures
        string_views(r@) == timestamp_candidates(t@),
{
    let tv = chars_of(t);
    let mut cands: Vec<String> = Vec::new();
    cands.push(owned(t));
    let ghost mid = match bracket_range(t@) {
        Some(b) => seq![t@.subrange(b.0, b.1)],
        None => Seq::<Seq<char>>::empty(),
    };
    match (find_char(&tv, '['), find_char(&tv, ']')) {
        (Some(a), Some(b)) => {
            let inner = string_of_range(&tv, a, b + 1);
            cands.push(inner);
        },
        _ => {},
    }
    assert(string_views(cands@) =~= seq![t@] + mid);
    let words = words_of(&tv);
    let ghost before = cands@;
    let mut k: usize = 0;
    while k < words.len()
        invariant
            k <= words.len(),
            string_views(words@) == line_words(t@),
            string_views(before) == seq![t@] + mid,
            cands@ == before + words@.take(k as int),
        decreases words.len() - k,
    {
        cands.push(words[k].clone());
        assert(words@.take(k + 1) == words@.take(k as int).push(words@[k as int]));
        k = k + 1;
    }
    assert(words@.take(words.len() as int) == words@);
    assert(string_views(cands@) =~= string_views(before) + string_views(words@));
    cands
}

/// The first of `cands` that chrono reads with the format `f`, and what it reads.
fn first_parsed(cands: &Vec<String>, f: &String) -> (r: Option<(i64, u32)>)
    ensures
        r == first_hit(string_views(cands@), f@),
        r matches Some(v) ==> instant_in_range(v),
{
    let ghost cs = string_views(cands@);
    let mut k: usize = 0;
    assert(cs.skip(0) == cs);
    while k < cands.len()
        invariant
            k <= cands.len(),
            cs == string_views(cands@),
            first_hit(cs, f@) == first_hit(cs.skip(k as int), f@),
        decreases cands.len() - k,
    {
        assert(cs[k as int] == cands@[k as int]@);
        match parse_from_str(cands[k].as_str(), f.as_str()) {
            Ok(v) => {
                assert(cs.skip(k as int)[0] == cs[k as int]);
                return Some(v);
            },
            Err(_) => {},
        }
        proof {
            lemma_first_hit_step(cs, k as int, f@);
        }
        k = k + 1;
    }
    assert(cs.skip(k as int).len() == 0);
    None
}

/// Finds the timestamp of a log line: the line is trimmed, a blank line gives `None`,
/// and otherwise each configured format in turn tries the whole line, then the text from
/// its first `[` through its first `]`, then each of its words (split at spaces and
/// quotes, stripped of `,`, `:`, `{` and `}`). The first success gives the instant in UTC
/// with the trimmed line.
pub fn parsed_with_dynamic_format(line: &str, config: &LogConfig) -> (r: Option<(UtcTime, String)>)
    requires
        !slicing_fails(line@, format_views(config.date_formats@)),
    ensures
        match dynamic_parse(line@, format_views(config.date_formats@)) {
            Some(p) => r matches Some(q) && q.0.secs == p.0.0 && q.0.nanos == p.0.1 && q.1@ == p.1,
            None => r is None,
        },
        r matches Some(q) ==> instant_in_range((q.0.secs, q.0.nanos)),
{
    let ghost fmts = format_views(config.date_formats@);
    let t = trim(line);
    if t.as_str().is_empty() {
        return None;
    }
    let tv = chars_of(t.as_str());
    let ghost cands = timestamp_candidates(t@);
    let reversed = match (find_char(&tv, '['), find_char(&tv, ']')) {
        (Some(a), Some(b)) => b + 1 < a,
        _ => false,
    };
    if reversed {
        // the first format reads the whole line, so the brackets are never sliced
        if config.date_formats.len() == 0 {
            return None;
        }
        assert(fmts[0] == config.date_formats@[0].format@);
        assert(cands[0] == t@);
        match parse_from_str(t.as_str(), config.date_formats[0].format.as_str()) {
            Ok(v) => {
                assert(first_hit(cands, fmts[0]) == Some(v));
                return Some((UtcTime { secs: v.0, nanos: v.1 }, t));
            },
            Err(_) => {
                return None;
            },
        }
    }
    let cand_strings = timestamp_candidates_of(t.as_str());
    let mut m: usize = 0;
    assert(fmts.skip(0) == fmts);
    while m < config.date_formats.len()
        invariant
            m <= config.date_formats.len(),
            fmts == format_views(config.date_formats@),
            t@ == trimmed(line@),
            t@.len() > 0,
            string_views(cand_strings@) == cands,
            cands == timestamp_candidates(t@),
            first_match(cands, fmts) == first_match(cands, fmts.skip(m as int)),
        decreases config.date_formats.len() - m,
    {
        let f = &config.date_formats[m].format;
        assert(fmts[m as int] == f@);
        let hit = first_parsed(&cand_strings, f);
        assert(fmts.skip(m as int)[0] == fmts[m as int]);
        assert(fmts.skip(m as int).drop_first() == fmts.skip(m + 1));
        match hit {
            Some(v) => {
                assert(first_match(cands, fmts.skip(m as int)) == Some(v));
                return Some((UtcTime { secs: v.0, nanos: v.1 }, t));
            },
            None => {
                assert(first_match(cands, fmts.skip(m as int)) == first_match(cands, fmts.skip(m + 1)));
            },
        }
        m = m + 1;
    }
    assert(fmts.skip(m as int).len() == 0);
    None
}

/// Whether `parsed_with_dynamic_format` would have to slice reversed brackets for `line`
/// (see `slicing_fails`), which it cannot do.
pub fn slicing_would_fail(line: &str, config: &LogConfig) -> (r: bool)
    ensures
        r == slicing_fails(line@, format_views(config.date_formats@)),
{
    let ghost fmts = format_views(config.date_formats@);
    let t = trim(line);
    if t.as_str().is_empty() || config.date_formats.len() == 0 {
        return false;
    }
    let tv = chars_of(t.as_str());
    let reversed = match (find_char(&tv, '['), find_char(&tv, ']')) {
        (Some(a), Some(b)) => b + 1 < a,
        _ => false,
    };
    if !reversed {
        return false;
    }
    assert(fmts[0] == config.date_formats@[0].format@);
    match parse_from_str(t.as_str(), config.date_formats[0].format.as_str()) {
        Ok(_) => false,
        Err(_) => true,
    }
}

/// For one format, the earliest candidate that chrono accepts decides: when chrono reads
/// candidate `k` and none of the candidates before it, the search gives what chrono
/// reads from candidate `k`, whatever later candidates would give.
pub proof fn earliest_accepted_candidate_wins(cands: Seq<Seq<char>>, fmt: Seq<char>, k: int)
    requires
        0 <= k < cands.len(),
        chrono_parse_instant(cands[k], fmt) is Some,
        forall|j: int| 0 <= j < k ==> chrono_parse_instant(#[trigger] cands[j], fmt) is None,
    ensures
        first_hit(cands, fmt) == chrono_parse_instant(cands[k], fmt),
    decreases k,
{
    if k > 0 {
        let d = cands.drop_first();
        assert(chrono_parse_instant(cands[0], fmt) is None);
        assert(d[k - 1] == cands[k]);
        assert forall|j: int| 0 <= j < k - 1 implies chrono_parse_instant(#[trigger] d[j], fmt) is None by {
            assert(d[j] == cands[j + 1]);
        }
        earliest_accepted_candidate_wins(d, fmt, k - 1);
    }
}

/// For one format, when chrono accepts none of the candidates the search finds nothing.
pub proof fn no_accepted_candidate_finds_nothing(cands: Seq<Seq<char>>, fmt: Seq<char>)
    requires
        forall|j: int| 0 <= j < cands.len() ==> chrono_parse_instant(#[trigger] cands[j], fmt) is None,
    ensures
        first_hit(cands, fmt) is None,
    decreases cands.len(),
{
    if cands.len() > 0 {
        let d = cands.drop_first();
        assert(chrono_parse_instant(cands[0], fmt) is None);
        assert forall|j: int| 0 <= j < d.len() implies chrono_parse_instant(#[trigger] d[j], fmt) is None by {
            assert(d[j] == cands[j + 1]);
        }
        no_accepted_candidate_finds_nothing(d, fmt);
    }
}

/// With a single format, a line that is not blank gets the instant chrono reads from its
/// earliest accepted candidate (the trimmed line, then the bracket span, then each word),
/// together with the trimmed line.
pub proof fn single_format_takes_earliest_candidate(line: Seq<char>, f: Seq<char>, k: int)
    requires
        trimmed(line).len() > 0,
        0 <= k < timestamp_candidates(trimmed(line)).len(),
        chrono_parse_instant(timestamp_candidates(trimmed(line))[k], f) is Some,
        forall|j: int| 0 <= j < k ==> chrono_parse_instant(#[trigger] timestamp_candidates(trimmed(line))[j], f) is None,
    ensures
        dynamic_parse(line, seq![f]) == Some((chrono_parse_instant(timestamp_candidates(trimmed(line))[k], f)->0, trimmed(line))),
{
    let c = timestamp_candidates(trimmed(line));
    earliest_accepted_candidate_wins(c, f, k);
    assert(seq![f][0] == f);
    assert(seq![f].drop_first() =~= Seq::<Seq<char>>::empty());
    assert(first_match(c, Seq::<Seq<char>>::empty()) is None);
}

/// The formats are tried in order and the first that finds a timestamp anywhere in the
/// line wins: the result for the formats `f0` then `rest` is the result for `f0` alone
/// when that finds one, else the result for `rest`.
pub proof fn formats_are_tried_in_order(line: Seq<char>, f0: Seq<char>, rest: Seq<Seq<char>>)
    ensures
        dynamic_parse(line, seq![f0] + rest) == (match dynamic_parse(line, seq![f0]) {
            Some(v) => Some(v),
            None => dynamic_parse(line, rest),
        }),
{
    let fs = seq![f0] + rest;
    assert(fs[0] == f0);
    assert(fs.drop_first() =~= rest);
    assert(seq![f0].drop_first() =~= Seq::<Seq<char>>::empty());
    let t = trimmed(line);
    let c = timestamp_candidates(t);
    assert(first_match(c, Seq::<Seq<char>>::empty()) is None);
}

/// Surrounding whitespace does not matter to the timestamp search: a line and the same
/// line trimmed give the same result, so trimming a line before it is searched (as the
/// extract stage does) changes nothing.
pub proof fn parsing_ignores_surrounding_whitespace(line: Seq<char>, fmts: Seq<Seq<char>>)
    ensures
        dynamic_parse(trimmed(line), fmts) == dynamic_parse(line, fmts),
        slicing_fails(trimmed(line), fmts) == slicing_fails(line, fmts),
{
    crate::text::trim_is_idempotent(line);
}

} // verus!
