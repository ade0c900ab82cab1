//! Properties of the library that span its functions.

use vstd::prelude::*;

use crate::freq::tally;
use crate::render::{
    event_text, events_text, gap_total, last_search, params_text, result_text, BodyView,
    EventView,
};
use crate::timestamp::{dec, fmt_ts_spec};
use crate::roundtrip::{all_single, lemma_segments_unlines, no_newline, unlines};
use crate::scan::{
    classify, event_count_segs, event_lines, initial_scan, is_event_line, line_step, line_ts, result_docs, scan_segments, scan_text, segments,
    underscored, ScanView, StatsView,
};
use crate::text::{back_ws, has_prefix, is_word, is_ws, skip_ws, tokens, trim};
use crate::timestamp::{delta_nanos, whole_seconds, LogTime};

verus! {

/// What scanning keeps at every step: one kind per counted event, and only
/// gaps below one hour.
pub open spec fn scan_consistent(st: ScanView) -> bool {
    &&& st.stats.event_count == st.stats.kinds.len()
    &&& forall|i: int| 0 <= i < st.stats.gaps.len() ==> #[trigger] st.stats.gaps[i] < 3600
}

proof fn lemma_step_consistent(st: ScanView, l: Seq<char>, ts: Option<LogTime>)
    requires
        scan_consistent(st),
    ensures
        scan_consistent(line_step(st, l, ts)),
{
}

proof fn lemma_segments_consistent(segs: Seq<Seq<char>>)
    ensures
        scan_consistent(scan_segments(segs)),
    decreases segs.len(),
{
    if segs.len() > 0 {
        lemma_segments_consistent(segs.drop_last());
        let l = trim(segs.last());
        lemma_step_consistent(scan_segments(segs.drop_last()), l, line_ts(l));
    }
}

/// Scanning any session text records exactly one event kind per counted
/// event, and records no gap of an hour or more.
pub proof fn law_scan_consistent(text: Seq<char>)
    ensures
        scan_text(text).event_count == scan_text(text).kinds.len(),
        forall|i: int| 0 <= i < scan_text(text).gaps.len() ==> #[trigger] scan_text(text).gaps[i] < 3600,
{
    lemma_segments_consistent(segments(text));
}


/// The scan of raw line segments (each trimmed first) from the state `st`.
pub open spec fn scan_from(st: ScanView, segs: Seq<Seq<char>>) -> ScanView
    decreases segs.len(),
{
    if segs.len() == 0 {
        st
    } else {
        let l = trim(segs.last());
        line_step(scan_from(st, segs.drop_last()), l, line_ts(l))
    }
}

proof fn lemma_scan_from_initial(segs: Seq<Seq<char>>)
    ensures
        scan_from(initial_scan(), segs) == scan_segments(segs),
    decreases segs.len(),
{
    if segs.len() > 0 {
        lemma_scan_from_initial(segs.drop_last());
    }
}

proof fn lemma_scan_from_append(st: ScanView, p: Seq<Seq<char>>, q: Seq<Seq<char>>)
    ensures
        scan_from(st, p + q) == scan_from(scan_from(st, p), q),
    decreases q.len(),
{
    if q.len() == 0 {
        assert(p + q =~= p);
    } else {
        lemma_scan_from_append(st, p, q.drop_last());
        assert((p + q).drop_last() =~= p + q.drop_last());
        assert((p + q).last() == q.last());
    }
}

/// Classifying a line adds the same counts, kinds, documents and queries
/// whatever was recorded before, and leaves the gaps alone.
proof fn lemma_classify_shift(sa: StatsView, sb: StatsView, base: StatsView, l: Seq<char>)
    requires
        sa.event_count == base.event_count + sb.event_count,
        sa.kinds == base.kinds + sb.kinds,
        sa.docs == base.docs + sb.docs,
        sa.queries == base.queries + sb.queries,
    ensures
        classify(sa, l).event_count == base.event_count + classify(sb, l).event_count,
        classify(sa, l).kinds == base.kinds + classify(sb, l).kinds,
        classify(sa, l).docs == base.docs + classify(sb, l).docs,
        classify(sa, l).queries == base.queries + classify(sb, l).queries,
        classify(sa, l).gaps == sa.gaps,
        classify(sb, l).gaps == sb.gaps,
{
    let ca = classify(sa, l);
    let cb = classify(sb, l);
    assert(ca.kinds =~= base.kinds + cb.kinds);
    assert(ca.docs =~= base.docs + cb.docs);
    assert(ca.queries =~= base.queries + cb.queries);
}

/// Scanning segments from a state `st` records what scanning them from the
/// start records, after what `st` holds; the gaps differ by at most the one
/// gap from the last timestamp of `st` to the first timestamp of the segments.
proof fn lemma_scan_from_shift(st: ScanView, q: Seq<Seq<char>>) -> (m: Seq<u32>)
    ensures
        m.len() <= 1,
        scan_from(st, q).stats.event_count == st.stats.event_count + scan_from(
            initial_scan(),
            q,
        ).stats.event_count,
        scan_from(st, q).stats.kinds == st.stats.kinds + scan_from(initial_scan(), q).stats.kinds,
        scan_from(st, q).stats.docs == st.stats.docs + scan_from(initial_scan(), q).stats.docs,
        scan_from(st, q).stats.queries == st.stats.queries + scan_from(
            initial_scan(),
            q,
        ).stats.queries,
        scan_from(st, q).stats.gaps == st.stats.gaps + m + scan_from(initial_scan(), q).stats.gaps,
        scan_from(initial_scan(), q).last_ts is None ==> {
            &&& m.len() == 0
            &&& scan_from(initial_scan(), q).stats.gaps.len() == 0
            &&& scan_from(st, q).last_ts == st.last_ts
        },
        scan_from(initial_scan(), q).last_ts is Some ==> scan_from(st, q).last_ts == scan_from(
            initial_scan(),
            q,
        ).last_ts,
    decreases q.len(),
{
    if q.len() == 0 {
        assert(st.stats.kinds + Seq::<Seq<char>>::empty() =~= st.stats.kinds);
        assert(st.stats.docs + Seq::<Seq<char>>::empty() =~= st.stats.docs);
        assert(st.stats.queries + Seq::<Seq<char>>::empty() =~= st.stats.queries);
        assert(st.stats.gaps + Seq::<u32>::empty() + Seq::<u32>::empty() =~= st.stats.gaps);
        Seq::empty()
    } else {
        let m0 = lemma_scan_from_shift(st, q.drop_last());
        let a = scan_from(st, q.drop_last());
        let b = scan_from(initial_scan(), q.drop_last());
        let l = trim(q.last());
        let ts = line_ts(l);
        if l.len() == 0 {
            m0
        } else {
            let ga = match (ts, a.last_ts) {
                (Some(t), Some(p)) => if crate::scan::gap_value(t, p) < 3600 {
                    a.stats.gaps.push(crate::scan::gap_value(t, p) as u32)
                } else {
                    a.stats.gaps
                },
                _ => a.stats.gaps,
            };
            let gb = match (ts, b.last_ts) {
                (Some(t), Some(p)) => if crate::scan::gap_value(t, p) < 3600 {
                    b.stats.gaps.push(crate::scan::gap_value(t, p) as u32)
                } else {
                    b.stats.gaps
                },
                _ => b.stats.gaps,
            };
            lemma_classify_shift(
                StatsView { gaps: ga, ..a.stats },
                StatsView { gaps: gb, ..b.stats },
                st.stats,
                l,
            );
            let m: Seq<u32> = if ts is Some && b.last_ts is None {
                ga.subrange(st.stats.gaps.len() as int, ga.len() as int)
            } else {
                m0
            };
            if ts is Some && b.last_ts is None {
                assert(gb =~= b.stats.gaps);
                assert(ga =~= st.stats.gaps + m + gb);
            } else if ts is Some {
                assert(ga =~= st.stats.gaps + m + gb);
            } else {
                assert(ga == a.stats.gaps);
            }
            m
        }
    }
}

proof fn lemma_segments_concat(a: Seq<char>, b: Seq<char>)
    requires
        a.len() == 0 || a.last() == '\n',
    ensures
        segments(a).last() == Seq::<char>::empty(),
        segments(a).len() > 0,
        segments(a + b) == segments(a).drop_last() + segments(b),
    decreases b.len(),
{
    crate::scan::lemma_segments_nonempty(a);
    if a.len() > 0 {
        assert(segments(a) == segments(a.drop_last()).push(Seq::empty()));
    }
    if b.len() == 0 {
        assert(a + b =~= a);
        assert(segments(a).drop_last() + segments(b) =~= segments(a));
    } else {
        let b0 = b.drop_last();
        lemma_segments_concat(a, b0);
        crate::scan::lemma_segments_nonempty(b0);
        assert((a + b).drop_last() =~= a + b0);
        assert((a + b).last() == b.last());
        let p = segments(a + b0);
        if b.last() == '\n' {
            assert(segments(a + b) =~= segments(a).drop_last() + segments(b));
        } else {
            assert(p.last() == segments(b0).last());
            assert(p.drop_last() =~= segments(a).drop_last() + segments(b0).drop_last());
            assert(segments(a + b) =~= segments(a).drop_last() + segments(b));
        }
    }
}

/// Scanning the concatenation of two texts, the first of them empty or ending
/// with a line break, records the events, kinds, documents and queries of the
/// first followed by those of the second; the gaps are those of the first,
/// at most one gap between them, and those of the second.
pub proof fn law_scan_concat(a: Seq<char>, b: Seq<char>)
    requires
        a.len() == 0 || a.last() == '\n',
    ensures
        scan_text(a + b).event_count == scan_text(a).event_count + scan_text(b).event_count,
        scan_text(a + b).kinds == scan_text(a).kinds + scan_text(b).kinds,
        scan_text(a + b).docs == scan_text(a).docs + scan_text(b).docs,
        scan_text(a + b).queries == scan_text(a).queries + scan_text(b).queries,
        exists|m: Seq<u32>|
            m.len() <= 1 && scan_text(a + b).gaps == scan_text(a).gaps + m + scan_text(b).gaps,
{
    lemma_segments_concat(a, b);
    let sa = segments(a);
    let sb = segments(b);
    lemma_scan_from_initial(sa);
    lemma_scan_from_initial(sa.drop_last());
    lemma_scan_from_initial(sb);
    lemma_scan_from_initial(sa.drop_last() + sb);
    assert(sa.drop_last().push(sa.last()) =~= sa);
    assert(trim(sa.last()).len() == 0);
    let st = scan_from(initial_scan(), sa.drop_last());
    assert(scan_from(initial_scan(), sa) == st);
    lemma_scan_from_append(initial_scan(), sa.drop_last(), sb);
    let m = lemma_scan_from_shift(st, sb);
    assert(scan_text(a + b).gaps == scan_text(a).gaps + m + scan_text(b).gaps);
}

/// The non-empty trimmed lines among raw line segments, in order.
pub open spec fn kept_lines(segs: Seq<Seq<char>>) -> Seq<Seq<char>>
    decreases segs.len(),
{
    if segs.len() == 0 {
        Seq::empty()
    } else if trim(segs.last()).len() == 0 {
        kept_lines(segs.drop_last())
    } else {
        kept_lines(segs.drop_last()).push(trim(segs.last()))
    }
}

/// The scan of lines that are already trimmed.
pub open spec fn scan_lines(ls: Seq<Seq<char>>) -> ScanView
    decreases ls.len(),
{
    if ls.len() == 0 {
        initial_scan()
    } else {
        line_step(scan_lines(ls.drop_last()), ls.last(), line_ts(ls.last()))
    }
}

proof fn lemma_scan_kept(segs: Seq<Seq<char>>)
    ensures
        scan_segments(segs) == scan_lines(kept_lines(segs)),
    decreases segs.len(),
{
    if segs.len() > 0 {
        lemma_scan_kept(segs.drop_last());
        let k = kept_lines(segs.drop_last());
        if trim(segs.last()).len() > 0 {
            assert(k.push(trim(segs.last())).drop_last() =~= k);
        }
    }
}

/// The number of main-event lines among lines that are already trimmed.
pub open spec fn event_count_lines(ls: Seq<Seq<char>>) -> nat
    decreases ls.len(),
{
    if ls.len() == 0 {
        0
    } else {
        event_count_lines(ls.drop_last()) + if is_event_line(ls.last()) {
            1nat
        } else {
            0nat
        }
    }
}

proof fn lemma_count_kept(segs: Seq<Seq<char>>)
    ensures
        event_count_segs(segs) == event_count_lines(kept_lines(segs)),
    decreases segs.len(),
{
    if segs.len() > 0 {
        lemma_count_kept(segs.drop_last());
        let k = kept_lines(segs.drop_last());
        let l = trim(segs.last());
        if l.len() > 0 {
            assert(k.push(l).drop_last() =~= k);
        } else {
            assert(!has_prefix(l, "QS "@)) by {
                reveal_strlit("QS ");
            }
            assert(!has_prefix(l, "CARD_SEARCH_START"@)) by {
                reveal_strlit("CARD_SEARCH_START");
            }
            assert(!has_prefix(l, "DOC_OPEN"@)) by {
                reveal_strlit("DOC_OPEN");
            }
        }
    }
}

/// Scanning sees only the non-empty trimmed lines of a text: two texts whose
/// lines, trimmed and with the blank ones left out, are the same scan alike,
/// however they differ in blank lines and in whitespace around lines, and
/// they hold as many main-event lines.
pub proof fn law_scan_ignores_blank_space(a: Seq<char>, b: Seq<char>)
    requires
        kept_lines(segments(a)) == kept_lines(segments(b)),
    ensures
        scan_text(a) == scan_text(b),
        event_lines(a) == event_lines(b),
{
    lemma_scan_kept(segments(a));
    lemma_scan_kept(segments(b));
    lemma_count_kept(segments(a));
    lemma_count_kept(segments(b));
}


proof fn lemma_skip_ws_at(x: Seq<char>, i: int, k: int)
    requires
        0 <= i <= k <= x.len(),
        forall|j: int| i <= j < k ==> is_ws(#[trigger] x[j]),
        k < x.len() ==> !is_ws(x[k]),
    ensures
        skip_ws(x, i) == k,
    decreases k - i,
{
    if i < k {
        lemma_skip_ws_at(x, i + 1, k);
    }
}

proof fn lemma_back_ws_at(x: Seq<char>, j: int, k: int)
    requires
        0 <= k <= j <= x.len(),
        forall|i: int| k <= i < j ==> is_ws(#[trigger] x[i]),
        k > 0 ==> !is_ws(x[k - 1]),
    ensures
        back_ws(x, j) == k,
    decreases j - k,
{
    if k < j {
        lemma_back_ws_at(x, j - 1, k);
    }
}

/// Whitespace added before and after a line does not change its trim.
pub proof fn law_trim_padding(w1: Seq<char>, s: Seq<char>, w2: Seq<char>)
    requires
        forall|i: int| 0 <= i < w1.len() ==> is_ws(#[trigger] w1[i]),
        forall|i: int| 0 <= i < w2.len() ==> is_ws(#[trigger] w2[i]),
    ensures
        trim(w1 + s + w2) == trim(s),
{
    let x = w1 + s + w2;
    let n = w1.len() as int;
    crate::text::lemma_skip_ws_bounds(s, 0);
    crate::text::lemma_back_ws_bounds(s, s.len() as int);
    let a = skip_ws(s, 0);
    let b = back_ws(s, s.len() as int);
    if a < s.len() {
        assert forall|j: int| 0 <= j < n + a implies is_ws(#[trigger] x[j]) by {
            if j >= n {
                assert(x[j] == s[j - n]);
            } else {
                assert(x[j] == w1[j]);
            }
        }
        assert(x[n + a] == s[a]);
        lemma_skip_ws_at(x, 0, n + a);
        assert(b > a) by {
            if b <= a {
                assert(is_ws(s[a]));
            }
        }
        assert forall|j: int| n + b <= j < x.len() implies is_ws(#[trigger] x[j]) by {
            if j < n + s.len() {
                assert(x[j] == s[j - n]);
            } else {
                assert(x[j] == w2[j - n - s.len()]);
            }
        }
        assert(x[n + b - 1] == s[b - 1]);
        lemma_back_ws_at(x, x.len() as int, n + b);
        assert(x.subrange(n + a, n + b) =~= s.subrange(a, b));
        assert(trim(x) == x.subrange(n + a, n + b));
        assert(trim(s) == s.subrange(a, b));
    } else {
        assert forall|j: int| 0 <= j < x.len() implies is_ws(#[trigger] x[j]) by {
            if n <= j < n + s.len() {
                assert(x[j] == s[j - n]);
            } else if j >= n + s.len() {
                assert(x[j] == w2[j - n - s.len()]);
            } else {
                assert(x[j] == w1[j]);
            }
        }
        lemma_skip_ws_at(x, 0, x.len() as int);
        crate::text::lemma_back_ws_bounds(x, x.len() as int);
        assert(trim(x) =~= Seq::<char>::empty());
        assert(trim(s) =~= Seq::<char>::empty());
    }
}

/// A line of whitespace alone, put among the segments of a text, adds no
/// trimmed line.
pub proof fn law_blank_line_kept(p: Seq<Seq<char>>, w: Seq<char>, q: Seq<Seq<char>>)
    requires
        forall|i: int| 0 <= i < w.len() ==> is_ws(#[trigger] w[i]),
    ensures
        kept_lines(p.push(w) + q) == kept_lines(p + q),
    decreases q.len(),
{
    if q.len() == 0 {
        assert(p.push(w) + q =~= p.push(w));
        assert(p + q =~= p);
        assert(p.push(w).drop_last() =~= p);
        lemma_skip_ws_at(w, 0, w.len() as int);
        crate::text::lemma_back_ws_bounds(w, w.len() as int);
        assert(trim(w).len() == 0);
        assert(kept_lines(p.push(w)) == kept_lines(p));
    } else {
        law_blank_line_kept(p, w, q.drop_last());
        assert((p.push(w) + q).drop_last() =~= p.push(w) + q.drop_last());
        assert((p + q).drop_last() =~= p + q.drop_last());
        assert((p.push(w) + q).last() == q.last());
        assert((p + q).last() == q.last());
    }
}


/// Two timestamped lines in a row record the seconds between them as one
/// gap when they lie less than an hour apart (a backward step counting as
/// zero seconds), and no gap when they lie an hour or more apart (below
/// 2^32 seconds).
pub proof fn law_gap_between_two_lines(l1: Seq<char>, l2: Seq<char>, t1: LogTime, t2: LogTime)
    requires
        no_newline(l1),
        no_newline(l2),
        line_ts(trim(l1)) == Some(t1),
        line_ts(trim(l2)) == Some(t2),
    ensures
        ({
            let d = whole_seconds(delta_nanos(t2, t1));
            let g = scan_text(l1 + seq!['\n'] + l2 + seq!['\n']).gaps;
            &&& 0 <= d < 3600 ==> g == seq![d as u32]
            &&& d < 0 ==> g == seq![0u32]
            &&& 3600 <= d < 4294967296 ==> g.len() == 0
        }),
{
    let ls = seq![l1, l2];
    assert forall|i: int| 0 <= i < ls.len() implies no_newline(#[trigger] ls[i]) by {}
    lemma_segments_unlines(ls);
    assert(ls.drop_last() =~= seq![l1]);
    assert(seq![l1].drop_last() =~= Seq::<Seq<char>>::empty());
    assert(unlines(Seq::<Seq<char>>::empty()) =~= Seq::<char>::empty());
    assert(seq![l1].last() == l1);
    assert(unlines(seq![l1]) =~= l1 + seq!['\n']);
    assert(ls.last() == l2);
    assert(unlines(ls) =~= l1 + seq!['\n'] + l2 + seq!['\n']);
    let segs = ls.push(Seq::<char>::empty());
    assert(segs.drop_last() =~= ls);
    assert(trim(Seq::<char>::empty()) =~= Seq::<char>::empty());
    let a = trim(l1);
    let b = trim(l2);
    assert(a.len() > 0) by {
        if a.len() == 0 {
            assert(tokens(a) =~= Seq::<Seq<char>>::empty());
        }
    }
    assert(b.len() > 0) by {
        if b.len() == 0 {
            assert(tokens(b) =~= Seq::<Seq<char>>::empty());
        }
    }
    let s1 = line_step(initial_scan(), a, Some(t1));
    assert(scan_segments(Seq::<Seq<char>>::empty()) == initial_scan());
    assert(scan_segments(seq![l1]) == s1);
    assert(scan_segments(ls) == line_step(s1, b, Some(t2)));
    assert(s1.stats.gaps =~= Seq::<u32>::empty());
    assert(s1.last_ts == Some(t1));
    let d = whole_seconds(delta_nanos(t2, t1));
    let g = scan_text(l1 + seq!['\n'] + l2 + seq!['\n']).gaps;
    if 0 <= d < 3600 {
        assert(g =~= seq![d as u32]);
    } else if d < 0 {
        assert(g =~= seq![0u32]);
    }
}


/// The search id an event starts, if it is a search.
pub open spec fn started_search(b: BodyView) -> Option<u64> {
    match b {
        BodyView::Query { search_id, .. } => Some(search_id),
        BodyView::Card { search_id, .. } => Some(search_id),
        _ => None,
    }
}

/// The latest search of a sequence of events is the one its last quick or
/// card search started: whatever follows that search (document openings and
/// idle events) leaves it the latest.
pub proof fn law_latest_search(evs: Seq<EventView>, k: int)
    requires
        0 <= k < evs.len(),
        started_search(evs[k].body) is Some,
        forall|j: int| k < j < evs.len() ==> started_search(#[trigger] evs[j].body) is None,
    ensures
        last_search(evs) == started_search(evs[k].body),
    decreases evs.len(),
{
    if k < evs.len() - 1 {
        let p = evs.drop_last();
        assert forall|j: int| k < j < p.len() implies started_search(#[trigger] p[j].body) is None by {
            assert(p[j] == evs[j]);
        }
        assert(p[k] == evs[k]);
        law_latest_search(p, k);
        assert(started_search(evs[evs.len() - 1].body) is None);
    }
}

/// Without a quick or card search among the events there is no latest
/// search.
pub proof fn law_no_search(evs: Seq<EventView>)
    requires
        forall|j: int| 0 <= j < evs.len() ==> started_search(#[trigger] evs[j].body) is None,
    ensures
        last_search(evs) is None,
    decreases evs.len(),
{
    if evs.len() > 0 {
        let p = evs.drop_last();
        assert forall|j: int| 0 <= j < p.len() implies started_search(#[trigger] p[j].body) is None by {
            assert(p[j] == evs[j]);
        }
        law_no_search(p);
        assert(started_search(evs[evs.len() - 1].body) is None);
    }
}

/// A document opened right after a card search is written as a
/// `DOC_OPEN <time> <card search id> <doc>` line, after the card search's
/// lines, whatever came before.
#[verifier::rlimit(50)]
pub proof fn law_open_after_card(
    start: i64,
    pre: Seq<EventView>,
    g1: u32,
    search_id: u64,
    params: Seq<(u32, Seq<char>)>,
    docs: Seq<Seq<char>>,
    g2: u32,
    doc: Seq<char>,
)
    ensures
        ({
            let card = EventView { gap: g1, body: BodyView::Card { search_id, params, docs } };
            let open = EventView { gap: g2, body: BodyView::Open { doc } };
            let t1 = (start + gap_total(pre) + g1) as i64;
            let t2 = (start + gap_total(pre) + g1 + g2) as i64;
            events_text(start, pre.push(card).push(open)) == events_text(start, pre)
                + "CARD_SEARCH_START "@ + fmt_ts_spec(t1) + "\n"@ + params_text(params)
                + "CARD_SEARCH_END\n"@ + dec(search_id as nat) + seq![' '] + crate::render::join_words(docs)
                + seq!['\n'] + "DOC_OPEN "@ + fmt_ts_spec(t2) + seq![' '] + dec(search_id as nat)
                + seq![' '] + doc + seq!['\n']
        }),
{
    let card = EventView { gap: g1, body: BodyView::Card { search_id, params, docs } };
    let open = EventView { gap: g2, body: BodyView::Open { doc } };
    let e1 = pre.push(card);
    let e2 = e1.push(open);
    assert(e2.drop_last() =~= e1);
    assert(e1.drop_last() =~= pre);
    let k = pre.len() as int;
    assert(e1[k] == card);
    law_latest_search(e1, k);
    assert(last_search(e1) == Some(search_id));
    assert(gap_total(e1) == gap_total(pre) + g1);
    assert(gap_total(e2) == gap_total(pre) + g1 + g2);
    let t1 = (start + gap_total(pre) + g1) as i64;
    let t2 = (start + gap_total(pre) + g1 + g2) as i64;
    let card_text = event_text(card.body, t1, last_search(pre));
    let open_text = event_text(open.body, t2, last_search(e1));
    assert(events_text(start, e1) == events_text(start, pre) + card_text);
    assert(events_text(start, e2) == events_text(start, e1) + open_text);
    assert(card_text == "CARD_SEARCH_START "@ + fmt_ts_spec(t1) + "\n"@ + params_text(params)
        + "CARD_SEARCH_END\n"@ + result_text(search_id, docs));
    assert(open_text == "DOC_OPEN "@ + fmt_ts_spec(t2) + seq![' '] + dec(search_id as nat)
        + seq![' '] + doc + seq!['\n']);
    assert(events_text(start, e2) =~= events_text(start, pre)
        + "CARD_SEARCH_START "@ + fmt_ts_spec(t1) + "\n"@ + params_text(params)
        + "CARD_SEARCH_END\n"@ + dec(search_id as nat) + seq![' '] + crate::render::join_words(docs)
        + seq!['\n'] + "DOC_OPEN "@ + fmt_ts_spec(t2) + seq![' '] + dec(search_id as nat)
        + seq![' '] + doc + seq!['\n']);
}

/// The parameter lines of a card search: one `$<id> <value>` line per
/// parameter, in order. The lines of two runs of parameters are those of the
/// first followed by those of the second.
pub proof fn law_params_text(ps: Seq<(u32, Seq<char>)>, qs: Seq<(u32, Seq<char>)>, p: (u32, Seq<char>))
    ensures
        params_text(ps + qs) == params_text(ps) + params_text(qs),
        params_text(seq![p]) == seq!['$'] + dec(p.0 as nat) + seq![' '] + p.1 + seq!['\n'],
        params_text(Seq::<(u32, Seq<char>)>::empty()) == Seq::<char>::empty(),
    decreases qs.len(),
{
    assert(seq![p].drop_last() =~= Seq::<(u32, Seq<char>)>::empty());
    assert(seq![p].last() == p);
    assert(params_text(Seq::<(u32, Seq<char>)>::empty()) == Seq::<char>::empty());
    assert(params_text(seq![p]) =~= seq!['$'] + dec(p.0 as nat) + seq![' '] + p.1 + seq!['\n']);
    if qs.len() == 0 {
        assert(ps + qs =~= ps);
        assert(params_text(ps) + params_text(qs) =~= params_text(ps));
    } else {
        law_params_text(ps, qs.drop_last(), p);
        assert((ps + qs).drop_last() =~= ps + qs.drop_last());
        assert((ps + qs).last() == qs.last());
        assert(params_text(ps + qs) =~= params_text(ps) + params_text(qs));
    }
}


proof fn lemma_segments_single(s: Seq<char>)
    ensures
        all_single(segments(s)),
    decreases s.len(),
{
    if s.len() > 0 {
        lemma_segments_single(s.drop_last());
        crate::scan::lemma_segments_nonempty(s.drop_last());
        let p = segments(s.drop_last());
        if s.last() != '\n' {
            let q = p.last().push(s.last());
            assert(no_newline(p[p.len() - 1]));
            assert(no_newline(q));
            assert forall|i: int| 0 <= i < segments(s).len() implies no_newline(
                #[trigger] segments(s)[i],
            ) by {
                if i < p.len() - 1 {
                    assert(segments(s)[i] == p[i]);
                }
            }
        } else {
            assert forall|i: int| 0 <= i < segments(s).len() implies no_newline(
                #[trigger] segments(s)[i],
            ) by {
                if i < p.len() {
                    assert(segments(s)[i] == p[i]);
                }
            }
        }
    }
}

proof fn lemma_sub_single(l: Seq<char>, a: int, b: int)
    requires
        no_newline(l),
        0 <= a <= b <= l.len(),
    ensures
        no_newline(l.subrange(a, b)),
{
    assert forall|i: int| 0 <= i < b - a implies l.subrange(a, b)[i] != '\n' by {
        assert(l.subrange(a, b)[i] == l[a + i]);
    }
}

/// Tokens are words: non-empty, without whitespace.
proof fn lemma_tokens_words(s: Seq<char>)
    ensures
        forall|i: int| 0 <= i < tokens(s).len() ==> is_word(#[trigger] tokens(s)[i]),
    decreases s.len(),
{
    if s.len() > 0 {
        lemma_tokens_words(s.drop_last());
        let p = tokens(s.drop_last());
        let c = s.last();
        if !is_ws(c) {
            if s.len() >= 2 && !is_ws(s[s.len() - 2]) {
                assert(p.len() > 0);
                assert(is_word(p[p.len() - 1]));
                let q = p.last().push(c);
                assert(is_word(q)) by {
                    assert forall|j: int| 0 <= j < q.len() implies !is_ws(#[trigger] q[j]) by {
                        if j < q.len() - 1 {
                            assert(q[j] == p[p.len() - 1][j]);
                        }
                    }
                }
                assert forall|i: int| 0 <= i < tokens(s).len() implies is_word(
                    #[trigger] tokens(s)[i],
                ) by {
                    if i < p.len() - 1 {
                        assert(tokens(s)[i] == p[i]);
                    }
                }
            } else {
                assert(is_word(seq![c]));
                assert forall|i: int| 0 <= i < tokens(s).len() implies is_word(
                    #[trigger] tokens(s)[i],
                ) by {
                    if i < p.len() {
                        assert(tokens(s)[i] == p[i]);
                    }
                }
            }
        }
    }
}

proof fn lemma_words_single(ws: Seq<Seq<char>>)
    requires
        forall|i: int| 0 <= i < ws.len() ==> is_word(#[trigger] ws[i]),
    ensures
        all_single(ws),
{
    assert forall|i: int| 0 <= i < ws.len() implies no_newline(#[trigger] ws[i]) by {
        assert(is_word(ws[i]));
        assert forall|j: int| 0 <= j < ws[i].len() implies ws[i][j] != '\n' by {
            assert(!is_ws(ws[i][j]));
        }
    }
}

/// Only words pass the underscore filter of words.
proof fn lemma_underscored_words(ts: Seq<Seq<char>>)
    requires
        forall|i: int| 0 <= i < ts.len() ==> is_word(#[trigger] ts[i]),
    ensures
        forall|i: int| 0 <= i < underscored(ts).len() ==> is_word(#[trigger] underscored(ts)[i]),
    decreases ts.len(),
{
    if ts.len() > 0 {
        let p = ts.drop_last();
        assert forall|i: int| 0 <= i < p.len() implies is_word(#[trigger] p[i]) by {
            assert(p[i] == ts[i]);
        }
        lemma_underscored_words(p);
        assert(is_word(ts[ts.len() - 1]));
        let u = underscored(ts);
        assert forall|i: int| 0 <= i < u.len() implies is_word(#[trigger] u[i]) by {
            if i < underscored(p).len() {
                assert(u[i] == underscored(p)[i]);
            }
        }
    }
}

proof fn lemma_step_single(st: ScanView, l: Seq<char>, ts: Option<LogTime>)
    requires
        no_newline(l),
        forall|i: int| 0 <= i < st.stats.docs.len() ==> is_word(#[trigger] st.stats.docs[i]),
        all_single(st.stats.queries),
    ensures
        forall|i: int|
            0 <= i < line_step(st, l, ts).stats.docs.len() ==> is_word(
                #[trigger] line_step(st, l, ts).stats.docs[i],
            ),
        all_single(line_step(st, l, ts).stats.queries),
{
    lemma_tokens_words(l);
    let toks = tokens(l);
    if toks.len() > 0 {
        assert(is_word(toks[toks.len() - 1]));
        let rest = toks.skip(1);
        assert forall|i: int| 0 <= i < rest.len() implies is_word(#[trigger] rest[i]) by {
            assert(rest[i] == toks[i + 1]);
        }
        lemma_underscored_words(rest);
    }
    let rd = result_docs(l);
    let d0 = st.stats.docs;
    assert forall|i: int| 0 <= i < (d0 + rd).len() implies is_word(#[trigger] (d0 + rd)[i]) by {
        if i < d0.len() {
            assert((d0 + rd)[i] == d0[i]);
        } else {
            assert((d0 + rd)[i] == rd[i - d0.len()]);
        }
    }
    match (crate::text::find_from(l, '{', 0), crate::text::rfind_before(l, '}', l.len() as int)) {
        (Some(a), Some(b)) => {
            if b > a {
                crate::text::lemma_find_bounds(l, '{', 0);
                crate::text::lemma_rfind_bounds(l, '}', l.len() as int);
                lemma_sub_single(l, a + 1, b);
            }
        },
        _ => {},
    }
}

proof fn lemma_segs_single(segs: Seq<Seq<char>>)
    requires
        all_single(segs),
    ensures
        forall|i: int|
            0 <= i < scan_segments(segs).stats.docs.len() ==> is_word(
                #[trigger] scan_segments(segs).stats.docs[i],
            ),
        all_single(scan_segments(segs).stats.queries),
    decreases segs.len(),
{
    if segs.len() > 0 {
        let p = segs.drop_last();
        assert forall|i: int| 0 <= i < p.len() implies no_newline(#[trigger] p[i]) by {
            assert(p[i] == segs[i]);
        }
        lemma_segs_single(p);
        let raw = segs.last();
        assert(no_newline(segs[segs.len() - 1]));
        let l = trim(raw);
        let a = crate::text::skip_ws(raw, 0);
        let b = crate::text::back_ws(raw, raw.len() as int);
        crate::text::lemma_skip_ws_bounds(raw, 0);
        crate::text::lemma_back_ws_bounds(raw, raw.len() as int);
        if a < b {
            lemma_sub_single(raw, a, b);
        }
        lemma_step_single(scan_segments(p), l, line_ts(l));
    }
}

/// The document ids that scanning records are words (non-empty, without
/// whitespace), and the queries it records hold no line breaks.
pub proof fn law_scan_texts(text: Seq<char>)
    ensures
        forall|i: int| 0 <= i < scan_text(text).docs.len() ==> is_word(#[trigger] scan_text(text).docs[i]),
        all_single(scan_text(text).docs),
        all_single(scan_text(text).queries),
{
    lemma_segments_single(text);
    lemma_segs_single(segments(text));
    lemma_words_single(scan_text(text).docs);
}


/// Counting occurrences introduces no key that was not there or counted.
pub proof fn law_tally_keys(m: Map<Seq<char>, nat>, xs: Seq<Seq<char>>)
    ensures
        forall|k: Seq<char>|
            #[trigger] tally(m, xs).contains_key(k) ==> m.contains_key(k) || xs.contains(k),
    decreases xs.len(),
{
    if xs.len() > 0 {
        law_tally_keys(m, xs.drop_last());
        assert forall|k: Seq<char>| #[trigger] tally(m, xs).contains_key(k) implies m.contains_key(
            k,
        ) || xs.contains(k) by {
            if k == xs.last() {
                assert(xs[xs.len() - 1] == k);
            } else {
                assert(tally(m, xs.drop_last()).contains_key(k));
                if xs.drop_last().contains(k) {
                    let i = choose|i: int| 0 <= i < xs.drop_last().len() && xs.drop_last()[i] == k;
                    assert(xs[i] == k);
                }
            }
        }
    }
}

} // verus!
