//! Scanning one session log into its structural statistics.

use vstd::prelude::*;

use crate::text::{
    chars_of, is_ascii_digit, str_contains, lemma_views_push, starts_with, trimmed, find_char, find_from, has_prefix, is_digit, rfind_before, rfind_char, string_of, tokens,
    tokens_of, trim, views,
};
use crate::timestamp::{
    delta_nanos, log_timestamp, parse_log_timestamp, seconds_between, valid_opt_time, valid_time,
    whole_seconds, LogTime,
};

verus! {

/// Statistics of one session log.
pub struct SessionStats {
    /// Number of main events (`QS`, `CARD_SEARCH_START`, `DOC_OPEN` lines).
    pub event_count: u32,
    /// Seconds between consecutive timestamped lines, below one hour.
    pub gaps: Vec<u32>,
    /// The kind of each main event: `QS`, `CARD` or `DOC_OPEN`.
    pub kinds: Vec<String>,
    /// Document ids seen in `DOC_OPEN` lines and in search result lines.
    pub docs: Vec<String>,
    /// The texts of the `QS` queries.
    pub queries: Vec<String>,
}

/// The mathematical content of [`SessionStats`].
pub struct StatsView {
    pub event_count: nat,
    pub gaps: Seq<u32>,
    pub kinds: Seq<Seq<char>>,
    pub docs: Seq<Seq<char>>,
    pub queries: Seq<Seq<char>>,
}

impl View for SessionStats {
    type V = StatsView;

    open spec fn view(&self) -> StatsView {
        StatsView {
            event_count: self.event_count as nat,
            gaps: self.gaps@,
            kinds: views(self.kinds@),
            docs: views(self.docs@),
            queries: views(self.queries@),
        }
    }
}

/// The state of a scan in progress: the statistics so far and the last
/// timestamp seen.
pub struct SessionScanner {
    pub stats: SessionStats,
    pub last_ts: Option<LogTime>,
}

pub struct ScanView {
    pub stats: StatsView,
    pub last_ts: Option<LogTime>,
}

impl View for SessionScanner {
    type V = ScanView;

    open spec fn view(&self) -> ScanView {
        ScanView { stats: self.stats@, last_ts: self.last_ts }
    }
}

pub open spec fn empty_stats() -> StatsView {
    StatsView {
        event_count: 0,
        gaps: Seq::empty(),
        kinds: Seq::empty(),
        docs: Seq::empty(),
        queries: Seq::empty(),
    }
}

pub open spec fn initial_scan() -> ScanView {
    ScanView { stats: empty_stats(), last_ts: None }
}

/// The gap recorded between a timestamp `t` and the previous one `prev`: the
/// whole seconds from `prev` to `t` as `chrono` counts them, negative
/// differences counting as zero, kept modulo 2^32 as a `u32` conversion does.
pub open spec fn gap_value(t: LogTime, prev: LogTime) -> int {
    let d = whole_seconds(delta_nanos(t, prev));
    if d <= 0 {
        0
    } else {
        d % 4294967296
    }
}

/// The text between the first `{` and the last `}` of a line, when the last
/// `}` comes after the first `{`.
pub open spec fn query_of(l: Seq<char>) -> Option<Seq<char>> {
    match (find_from(l, '{', 0), rfind_before(l, '}', l.len() as int)) {
        (Some(a), Some(b)) => if b > a {
            Some(l.subrange(a + 1, b))
        } else {
            None
        },
        _ => None,
    }
}

/// Whether a (trimmed) line is a main event: `QS `, `CARD_SEARCH_START` or
/// `DOC_OPEN` at its start.
pub open spec fn is_event_line(l: Seq<char>) -> bool {
    ||| has_prefix(l, "QS "@)
    ||| has_prefix(l, "CARD_SEARCH_START"@)
    ||| has_prefix(l, "DOC_OPEN"@)
}

/// Whether a (trimmed) line is a search result line: it starts with a digit
/// or `-`.
pub open spec fn is_result_line(l: Seq<char>) -> bool {
    l.len() > 0 && (is_digit(l[0]) || l[0] == '-')
}

/// The tokens of `ts` that hold an underscore, in order.
pub open spec fn underscored(ts: Seq<Seq<char>>) -> Seq<Seq<char>>
    decreases ts.len(),
{
    if ts.len() == 0 {
        Seq::empty()
    } else if ts.last().contains('_') {
        underscored(ts.drop_last()).push(ts.last())
    } else {
        underscored(ts.drop_last())
    }
}

/// The document ids of a result line: its tokens after the first that hold
/// an underscore.
pub open spec fn result_docs(l: Seq<char>) -> Seq<Seq<char>> {
    if tokens(l).len() > 0 {
        underscored(tokens(l).skip(1))
    } else {
        Seq::empty()
    }
}

/// The statistics after classifying one trimmed, non-empty line.
pub open spec fn classify(s: StatsView, l: Seq<char>) -> StatsView {
    if has_prefix(l, "QS "@) {
        StatsView {
            event_count: s.event_count + 1,
            kinds: s.kinds.push("QS"@),
            queries: match query_of(l) {
                Some(q) => s.queries.push(q),
                None => s.queries,
            },
            ..s
        }
    } else if has_prefix(l, "CARD_SEARCH_START"@) {
        StatsView { event_count: s.event_count + 1, kinds: s.kinds.push("CARD"@), ..s }
    } else if has_prefix(l, "DOC_OPEN"@) {
        StatsView {
            event_count: s.event_count + 1,
            kinds: s.kinds.push("DOC_OPEN"@),
            docs: if tokens(l).len() > 0 {
                s.docs.push(tokens(l).last())
            } else {
                s.docs
            },
            ..s
        }
    } else if is_result_line(l) {
        StatsView { docs: s.docs + result_docs(l), ..s }
    } else {
        s
    }
}

/// One step of the scan: a trimmed line `l` whose timestamp token read as `ts`.
/// An empty line changes nothing. A timestamp records the gap to the previous
/// one (when below one hour) and becomes the previous one.
pub open spec fn line_step(st: ScanView, l: Seq<char>, ts: Option<LogTime>) -> ScanView {
    if l.len() == 0 {
        st
    } else {
        let gaps = match (ts, st.last_ts) {
            (Some(t), Some(p)) => if gap_value(t, p) < 3600 {
                st.stats.gaps.push(gap_value(t, p) as u32)
            } else {
                st.stats.gaps
            },
            _ => st.stats.gaps,
        };
        ScanView {
            stats: classify(StatsView { gaps: gaps, ..st.stats }, l),
            last_ts: if ts is Some {
                ts
            } else {
                st.last_ts
            },
        }
    }
}

/// The timestamp of a line: its second token, read by `log_timestamp`.
pub open spec fn line_ts(l: Seq<char>) -> Option<LogTime> {
    if tokens(l).len() >= 2 {
        log_timestamp(tokens(l)[1])
    } else {
        None
    }
}

/// The pieces of `s` between `'\n'` characters (there is always at least one).
pub open spec fn segments(s: Seq<char>) -> Seq<Seq<char>>
    decreases s.len(),
{
    if s.len() == 0 {
        seq![Seq::empty()]
    } else {
        let p = segments(s.drop_last());
        if s.last() == '\n' {
            p.push(Seq::empty())
        } else {
            p.drop_last().push(p.last().push(s.last()))
        }
    }
}

/// The scan of a sequence of raw line segments, each trimmed first.
pub open spec fn scan_segments(segs: Seq<Seq<char>>) -> ScanView
    decreases segs.len(),
{
    if segs.len() == 0 {
        initial_scan()
    } else {
        let l = trim(segs.last());
        line_step(scan_segments(segs.drop_last()), l, line_ts(l))
    }
}

/// The statistics of a session text.
pub open spec fn scan_text(text: Seq<char>) -> StatsView {
    scan_segments(segments(text)).stats
}

/// The number of main-event lines among the segments.
pub open spec fn event_count_segs(segs: Seq<Seq<char>>) -> nat
    decreases segs.len(),
{
    if segs.len() == 0 {
        0
    } else {
        event_count_segs(segs.drop_last()) + if is_event_line(trim(segs.last())) {
            1nat
        } else {
            0nat
        }
    }
}

/// The number of main-event lines of a text.
pub open spec fn event_lines(text: Seq<char>) -> nat {
    event_count_segs(segments(text))
}

pub open spec fn opt_view(o: Option<String>) -> Option<Seq<char>> {
    match o {
        Some(s) => Some(s@),
        None => None,
    }
}

/// The text between the first `{` and the last `}` of a `QS` line.
pub fn extract_query(line: &str) -> (r: Option<String>)
    ensures
        opt_view(r) == query_of(line@),
{
    let cs = chars_of(line);
    let start = match find_char(&cs, '{') {
        Some(k) => k,
        None => return None,
    };
    let end = match rfind_char(&cs, '}') {
        Some(k) => k,
        None => return None,
    };
    assert(find_from(line@, '{', 0) == Some(start as int));
    assert(rfind_before(line@, '}', line@.len() as int) == Some(end as int));
    if end > start {
        Some(string_of(&cs, start + 1, end))
    } else {
        None
    }
}

/// The timestamp of a line: its second whitespace-separated token, parsed.
pub fn extract_ts(line: &str) -> (r: Option<LogTime>)
    ensures
        r == line_ts(line@),
        valid_opt_time(r),
{
    let cs = chars_of(line);
    let toks = tokens_of(&cs);
    if toks.len() < 2 {
        return None;
    }
    proof {
        assert(views(toks@)[1] == toks@[1]@);
    }
    parse_log_timestamp(toks[1].as_str())
}

/// The gap recorded between timestamp `t` and the previous one `prev`.
pub fn gap_between(t: LogTime, prev: LogTime) -> (g: u32)
    requires
        valid_time(t),
        valid_time(prev),
    ensures
        g == gap_value(t, prev),
{
    let d = seconds_between(t, prev);
    if d <= 0 {
        0
    } else {
        (d % 4294967296) as u32
    }
}

impl SessionScanner {
    pub fn new() -> (s: SessionScanner)
        ensures
            s@ == initial_scan(),
    {
        let s = SessionScanner {
            stats: SessionStats {
                event_count: 0,
                gaps: Vec::new(),
                kinds: Vec::new(),
                docs: Vec::new(),
                queries: Vec::new(),
            },
            last_ts: None,
        };
        assert(s@.stats.kinds =~= Seq::<Seq<char>>::empty());
        assert(s@.stats.docs =~= Seq::<Seq<char>>::empty());
        assert(s@.stats.queries =~= Seq::<Seq<char>>::empty());
        s
    }
}


pub proof fn lemma_views_append(a: Seq<String>, b: Seq<String>)
    ensures
        views(a + b) == views(a) + views(b),
{
    assert(views(a + b) =~= views(a) + views(b));
}

/// The document ids of a result line, from its tokens.
fn result_line_docs(cs: &Vec<char>) -> (docs: Vec<String>)
    ensures
        views(docs@) == result_docs(cs@),
{
    let toks = tokens_of(cs);
    let mut docs: Vec<String> = Vec::new();
    if toks.len() == 0 {
        return docs;
    }
    let ghost tv = views(toks@);
    let mut k: usize = 1;
    while k < toks.len()
        invariant
            1 <= k <= toks@.len(),
            tv == views(toks@),
            tv == tokens(cs@),
            views(docs@) == underscored(tv.subrange(1, k as int)),
        decreases toks@.len() - k,
    {
        let ghost before = tv.subrange(1, k as int);
        assert(tv.subrange(1, k + 1).drop_last() =~= before);
        assert(tv.subrange(1, k + 1).last() == toks@[k as int]@);
        if str_contains(toks[k].as_str(), '_') {
            let d = toks[k].clone();
            proof {
                lemma_views_push(docs@, d);
            }
            docs.push(d);
        }
        k = k + 1;
    }
    assert(tv.subrange(1, toks@.len() as int) =~= tv.skip(1));
    docs
}

/// Scans one trimmed line of a session whose timestamp token read as `ts`
/// (as [`extract_ts`] reads it).
pub fn scan_line(scan: &mut SessionScanner, line: &str, ts: Option<LogTime>)
    requires
        is_event_line(line@) ==> old(scan).stats.event_count < u32::MAX,
        valid_opt_time(ts),
        valid_opt_time(old(scan).last_ts),
    ensures
        final(scan)@ == line_step(old(scan)@, line@, ts),
{
    let cs = chars_of(line);
    if cs.len() == 0 {
        return ;
    }
    match (ts, scan.last_ts) {
        (Some(t), Some(p)) => {
            let g = gap_between(t, p);
            if g < 3600 {
                scan.stats.gaps.push(g);
            }
        },
        _ => {},
    }
    if ts.is_some() {
        scan.last_ts = ts;
    }
    if starts_with(&cs, "QS ") {
        scan.stats.event_count = scan.stats.event_count + 1;
        let k = String::from_str("QS");
        proof {
            lemma_views_push(scan.stats.kinds@, k);
        }
        scan.stats.kinds.push(k);
        match extract_query(line) {
            Some(q) => {
                proof {
                    lemma_views_push(scan.stats.queries@, q);
                }
                scan.stats.queries.push(q);
            },
            None => {},
        }
    } else if starts_with(&cs, "CARD_SEARCH_START") {
        scan.stats.event_count = scan.stats.event_count + 1;
        let k = String::from_str("CARD");
        proof {
            lemma_views_push(scan.stats.kinds@, k);
        }
        scan.stats.kinds.push(k);
    } else if starts_with(&cs, "DOC_OPEN") {
        scan.stats.event_count = scan.stats.event_count + 1;
        let k = String::from_str("DOC_OPEN");
        proof {
            lemma_views_push(scan.stats.kinds@, k);
        }
        scan.stats.kinds.push(k);
        let toks = tokens_of(&cs);
        if toks.len() > 0 {
            let d = toks[toks.len() - 1].clone();
            proof {
                assert(views(toks@).last() == d@);
                lemma_views_push(scan.stats.docs@, d);
            }
            scan.stats.docs.push(d);
        }
    } else if is_ascii_digit(cs[0]) || cs[0] == '-' {
        let mut extra = result_line_docs(&cs);
        proof {
            lemma_views_append(scan.stats.docs@, extra@);
        }
        scan.stats.docs.append(&mut extra);
    }
}

/// A line step adds one to the event count exactly on main-event lines.
pub proof fn lemma_step_count(st: ScanView, l: Seq<char>, ts: Option<LogTime>)
    ensures
        line_step(st, l, ts).stats.event_count == st.stats.event_count + if is_event_line(l) {
            1nat
        } else {
            0nat
        },
{
    reveal_strlit("QS ");
    reveal_strlit("CARD_SEARCH_START");
    reveal_strlit("DOC_OPEN");
}

/// Scans one raw line segment: trims it, reads its timestamp and scans it.
fn scan_segment(scan: &mut SessionScanner, seg: &Vec<char>)
    requires
        is_event_line(trim(seg@)) ==> old(scan).stats.event_count < u32::MAX,
        valid_opt_time(old(scan).last_ts),
    ensures
        final(scan)@ == line_step(old(scan)@, trim(seg@), line_ts(trim(seg@))),
        valid_opt_time(final(scan).last_ts),
        final(scan).stats.event_count == old(scan).stats.event_count + if is_event_line(
            trim(seg@),
        ) {
            1nat
        } else {
            0nat
        },
{
    proof {
        lemma_step_count(old(scan)@, trim(seg@), line_ts(trim(seg@)));
    }
    let line = trimmed(seg);
    let ts = extract_ts(line.as_str());
    scan_line(scan, line.as_str(), ts);
}

pub proof fn lemma_segments_nonempty(s: Seq<char>)
    ensures
        segments(s).len() >= 1,
    decreases s.len(),
{
    if s.len() > 0 {
        lemma_segments_nonempty(s.drop_last());
    }
}

/// Whether `p` is a prefix of `q`.
pub open spec fn is_prefix<A>(p: Seq<A>, q: Seq<A>) -> bool {
    p.len() <= q.len() && q.take(p.len() as int) == p
}

proof fn lemma_segments_step(t: Seq<char>, c: char)
    ensures
        is_prefix(segments(t).drop_last(), segments(t.push(c)).drop_last()),
{
    lemma_segments_nonempty(t);
    assert(t.push(c).drop_last() =~= t);
    let a = segments(t).drop_last();
    let b = segments(t.push(c)).drop_last();
    if c == '\n' {
        assert(b =~= segments(t));
        assert(b.take(a.len() as int) =~= a);
    } else {
        assert(b =~= a);
        assert(b.take(a.len() as int) =~= a);
    }
}

/// The segments completed within a prefix of a text are a prefix of the
/// segments of the text.
pub proof fn lemma_segments_prefix(s: Seq<char>, i: int)
    requires
        0 <= i <= s.len(),
    ensures
        is_prefix(segments(s.take(i)).drop_last(), segments(s).drop_last()),
    decreases s.len() - i,
{
    if i == s.len() {
        assert(s.take(i) =~= s);
        assert(segments(s).drop_last().take(segments(s).drop_last().len() as int) =~= segments(
            s,
        ).drop_last());
    } else {
        assert(s.take(i + 1) =~= s.take(i).push(s[i]));
        lemma_segments_step(s.take(i), s[i]);
        lemma_segments_prefix(s, i + 1);
        let a = segments(s.take(i)).drop_last();
        let b = segments(s.take(i + 1)).drop_last();
        let c = segments(s).drop_last();
        assert(c.take(a.len() as int) =~= c.take(b.len() as int).take(a.len() as int));
    }
}

pub proof fn lemma_count_prefix(p: Seq<Seq<char>>, q: Seq<Seq<char>>)
    requires
        is_prefix(p, q),
    ensures
        event_count_segs(p) <= event_count_segs(q),
    decreases q.len(),
{
    if p.len() == q.len() {
        assert(q.take(q.len() as int) =~= q);
    } else {
        assert(q.drop_last().take(p.len() as int) =~= q.take(p.len() as int));
        lemma_count_prefix(p, q.drop_last());
    }
}

/// Scans a whole session text (`\n`-separated lines, each trimmed; empty lines
/// are skipped).
pub fn scan_session(text: &str) -> (stats: SessionStats)
    requires
        event_lines(text@) <= u32::MAX,
    ensures
        stats@ == scan_text(text@),
{
    let cs = chars_of(text);
    let mut scanner = SessionScanner::new();
    let mut seg: Vec<char> = Vec::new();
    let mut i: usize = 0;
    assert(cs@.take(0) =~= Seq::<char>::empty());
    assert(seg@ =~= Seq::<char>::empty());
    while i < cs.len()
        invariant
            0 <= i <= cs@.len(),
            cs@ == text@,
            event_lines(text@) <= u32::MAX,
            segments(cs@.take(i as int)).last() == seg@,
            scanner@ == scan_segments(segments(cs@.take(i as int)).drop_last()),
            scanner.stats.event_count == event_count_segs(
                segments(cs@.take(i as int)).drop_last(),
            ),
            valid_opt_time(scanner.last_ts),
        decreases cs@.len() - i,
    {
        let c = cs[i];
        let ghost p = segments(cs@.take(i as int));
        proof {
            lemma_segments_nonempty(cs@.take(i as int));
            assert(cs@.take(i + 1).drop_last() =~= cs@.take(i as int));
            assert(cs@.take(i + 1).last() == c);
            assert(p.drop_last().push(p.last()) =~= p);
        }
        if c == '\n' {
            proof {
                assert(segments(cs@.take(i + 1)).drop_last() =~= p);
                lemma_segments_prefix(cs@, i + 1);
                lemma_segments_nonempty(cs@);
                assert(cs@.take(cs@.len() as int) =~= cs@);
                lemma_count_prefix(p, segments(cs@).drop_last());
                lemma_count_prefix(segments(cs@).drop_last(), segments(cs@));
                assert(segments(cs@).drop_last().len() <= segments(cs@).len());
                assert(segments(cs@).take(segments(cs@).drop_last().len() as int) =~= segments(
                    cs@,
                ).drop_last());
            }
            scan_segment(&mut scanner, &seg);
            seg = Vec::new();
            proof {
                assert(seg@ =~= Seq::<char>::empty());
            }
        } else {
            seg.push(c);
            proof {
                assert(segments(cs@.take(i + 1)).drop_last() =~= p.drop_last());
            }
        }
        i = i + 1;
    }
    proof {
        assert(cs@.take(cs@.len() as int) =~= cs@);
        lemma_segments_nonempty(cs@);
        let p = segments(cs@);
        assert(p.drop_last().push(p.last()) =~= p);
    }
    scan_segment(&mut scanner, &seg);
    scanner.stats
}


/// Whether the characters of a trimmed line make a main-event line.
pub fn is_event_chars(cs: &Vec<char>) -> (b: bool)
    ensures
        b == is_event_line(cs@),
{
    starts_with(cs, "QS ") || starts_with(cs, "CARD_SEARCH_START") || starts_with(cs, "DOC_OPEN")
}

/// Whether a text has at most `cap` main-event lines.
pub fn event_lines_at_most(text: &Vec<char>, cap: u64) -> (b: bool)
    ensures
        b == (event_lines(text@) <= cap),
{
    let mut count: u64 = 0;
    let mut seg: Vec<char> = Vec::new();
    let mut i: usize = 0;
    assert(text@.take(0) =~= Seq::<char>::empty());
    assert(seg@ =~= Seq::<char>::empty());
    while i < text.len()
        invariant
            0 <= i <= text@.len(),
            segments(text@.take(i as int)).last() == seg@,
            count == event_count_segs(segments(text@.take(i as int)).drop_last()),
            count <= cap,
        decreases text@.len() - i,
    {
        let c = text[i];
        let ghost p = segments(text@.take(i as int));
        proof {
            lemma_segments_nonempty(text@.take(i as int));
            assert(text@.take(i + 1).drop_last() =~= text@.take(i as int));
            assert(text@.take(i + 1).last() == c);
            assert(p.drop_last().push(p.last()) =~= p);
        }
        if c == '\n' {
            let line = trimmed(&seg);
            let lc = chars_of(line.as_str());
            proof {
                assert(segments(text@.take(i + 1)).drop_last() =~= p);
            }
            if is_event_chars(&lc) {
                if count == cap {
                    proof {
                        lemma_segments_prefix(text@, i + 1);
                        lemma_segments_nonempty(text@);
                        assert(text@.take(text@.len() as int) =~= text@);
                        lemma_count_prefix(p, segments(text@).drop_last());
                        lemma_count_prefix(segments(text@).drop_last(), segments(text@));
                        assert(segments(text@).take(segments(text@).drop_last().len() as int)
                            =~= segments(text@).drop_last());
                    }
                    return false;
                }
                count = count + 1;
            }
            seg = Vec::new();
            proof {
                assert(seg@ =~= Seq::<char>::empty());
            }
        } else {
            seg.push(c);
            proof {
                assert(segments(text@.take(i + 1)).drop_last() =~= p.drop_last());
            }
        }
        i = i + 1;
    }
    proof {
        assert(text@.take(text@.len() as int) =~= text@);
        lemma_segments_nonempty(text@);
        let p = segments(text@);
        assert(p.drop_last().push(p.last()) =~= p);
    }
    let line = trimmed(&seg);
    let lc = chars_of(line.as_str());
    if is_event_chars(&lc) {
        if count == cap {
            return false;
        }
    }
    true
}

} // verus!
