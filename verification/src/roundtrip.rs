//! Scanning a rendered session gives back what the plan wrote.

use vstd::prelude::*;

use crate::dist::DistView;
use crate::plan::{body_fits, doc_names, event_fits, pick_or, plan_fits};
use crate::render::{
    event_text, events_text, gap_total, join_words, last_search, params_text, plan_end,
    render_text, BodyView, EventView, PlanView,
};
use crate::scan::{
    is_result_line, line_step, query_of, result_docs, scan_segments, scan_text, segments,
    underscored, ScanView,
};
use crate::text::{
    back_ws, find_from, has_prefix, is_digit, is_word, is_ws, lemma_back_ws_bounds,
    lemma_tokens_space, lemma_tokens_word, lemma_trim_id, rfind_before, tokens, trim,
};
use crate::timestamp::{civil_date, dec, digit, fmt_int, fmt_ts_spec, zero_pad, LogTime};

verus! {

/// No line break in `s`.
pub open spec fn no_newline(s: Seq<char>) -> bool {
    forall|i: int| 0 <= i < s.len() ==> s[i] != '\n'
}

/// Lines, each followed by `'\n'`.
pub open spec fn unlines(ls: Seq<Seq<char>>) -> Seq<char>
    decreases ls.len(),
{
    if ls.len() == 0 {
        Seq::empty()
    } else {
        unlines(ls.drop_last()) + ls.last() + seq!['\n']
    }
}

proof fn lemma_segments_append(s: Seq<char>, l: Seq<char>)
    requires
        no_newline(l),
    ensures
        segments(s + l) == segments(s).drop_last().push(segments(s).last() + l),
    decreases l.len(),
{
    crate::scan::lemma_segments_nonempty(s);
    if l.len() == 0 {
        assert(s + l =~= s);
        assert(segments(s).last() + l =~= segments(s).last());
        assert(segments(s).drop_last().push(segments(s).last()) =~= segments(s));
    } else {
        let l0 = l.drop_last();
        lemma_segments_append(s, l0);
        assert((s + l).drop_last() =~= s + l0);
        assert((s + l).last() == l.last());
        let p = segments(s + l0);
        assert(p.drop_last() =~= segments(s).drop_last());
        assert((segments(s).last() + l0).push(l.last()) =~= segments(s).last() + l);
    }
}

proof fn lemma_segments_newline(s: Seq<char>)
    ensures
        segments(s.push('\n')) == segments(s).push(Seq::empty()),
{
    assert(s.push('\n').drop_last() =~= s);
}

/// The segments of lines each followed by `'\n'` are the lines and a last,
/// empty one.
pub proof fn lemma_segments_unlines(ls: Seq<Seq<char>>)
    requires
        forall|i: int| 0 <= i < ls.len() ==> no_newline(#[trigger] ls[i]),
    ensures
        segments(unlines(ls)) == ls.push(Seq::empty()),
    decreases ls.len(),
{
    if ls.len() == 0 {
        assert(segments(Seq::<char>::empty()) =~= seq![Seq::<char>::empty()]);
        assert(ls.push(Seq::empty()) =~= seq![Seq::<char>::empty()]);
    } else {
        let p = ls.drop_last();
        assert forall|i: int| 0 <= i < p.len() implies no_newline(#[trigger] p[i]) by {
            assert(p[i] == ls[i]);
        }
        lemma_segments_unlines(p);
        let u = unlines(p);
        assert(no_newline(ls.last()));
        lemma_segments_append(u, ls.last());
        assert(u + ls.last() + seq!['\n'] =~= (u + ls.last()).push('\n'));
        lemma_segments_newline(u + ls.last());
        assert(p.push(Seq::empty()).drop_last() =~= p);
        assert(Seq::<char>::empty() + ls.last() =~= ls.last());
        assert(p.push(ls.last()) =~= ls);
    }
}

pub proof fn lemma_unlines_append(a: Seq<Seq<char>>, b: Seq<Seq<char>>)
    ensures
        unlines(a + b) == unlines(a) + unlines(b),
    decreases b.len(),
{
    if b.len() == 0 {
        assert(a + b =~= a);
        assert(unlines(a) + unlines(b) =~= unlines(a));
    } else {
        lemma_unlines_append(a, b.drop_last());
        assert((a + b).drop_last() =~= a + b.drop_last());
        assert((a + b).last() == b.last());
        assert(unlines(a + b) =~= unlines(a) + unlines(b));
    }
}

/// Trimming keeps the first character when it is not whitespace.
pub proof fn lemma_trim_first(l: Seq<char>)
    requires
        l.len() > 0,
        !is_ws(l[0]),
    ensures
        trim(l).len() > 0,
        trim(l)[0] == l[0],
{
    lemma_back_ws_bounds(l, l.len() as int);
    assert(back_ws(l, l.len() as int) >= 1);
}

/// Trimming keeps a prefix that starts and ends with non-whitespace.
pub proof fn lemma_trim_prefix(l: Seq<char>, p: Seq<char>)
    requires
        has_prefix(l, p),
        p.len() > 0,
        !is_ws(p[0]),
        !is_ws(p[p.len() - 1]),
    ensures
        has_prefix(trim(l), p),
{
    assert(l[0] == p[0]);
    assert(l[p.len() - 1] == p[p.len() - 1]);
    lemma_back_ws_bounds(l, l.len() as int);
    let b = back_ws(l, l.len() as int);
    assert(b >= p.len());
    assert(trim(l).subrange(0, p.len() as int) =~= p);
}


/// The event kind a trimmed line records, if any.
pub open spec fn line_kinds(l: Seq<char>) -> Seq<Seq<char>> {
    if has_prefix(l, "QS "@) {
        seq!["QS"@]
    } else if has_prefix(l, "CARD_SEARCH_START"@) {
        seq!["CARD"@]
    } else if has_prefix(l, "DOC_OPEN"@) {
        seq!["DOC_OPEN"@]
    } else {
        Seq::empty()
    }
}

/// The query a trimmed line records, if any.
pub open spec fn line_queries(l: Seq<char>) -> Seq<Seq<char>> {
    if has_prefix(l, "QS "@) {
        match query_of(l) {
            Some(q) => seq![q],
            None => Seq::empty(),
        }
    } else {
        Seq::empty()
    }
}

/// The event kinds recorded by a sequence of raw segments.
pub open spec fn segs_kinds(segs: Seq<Seq<char>>) -> Seq<Seq<char>>
    decreases segs.len(),
{
    if segs.len() == 0 {
        Seq::empty()
    } else {
        segs_kinds(segs.drop_last()) + line_kinds(trim(segs.last()))
    }
}

/// The queries recorded by a sequence of raw segments.
pub open spec fn segs_queries(segs: Seq<Seq<char>>) -> Seq<Seq<char>>
    decreases segs.len(),
{
    if segs.len() == 0 {
        Seq::empty()
    } else {
        segs_queries(segs.drop_last()) + line_queries(trim(segs.last()))
    }
}

proof fn lemma_step_kinds(st: ScanView, l: Seq<char>, ts: Option<LogTime>)
    ensures
        line_step(st, l, ts).stats.kinds == st.stats.kinds + line_kinds(l),
        line_step(st, l, ts).stats.queries == st.stats.queries + line_queries(l),
{
    reveal_strlit("QS ");
    reveal_strlit("CARD_SEARCH_START");
    reveal_strlit("DOC_OPEN");
    if l.len() == 0 {
        assert(st.stats.kinds + line_kinds(l) =~= st.stats.kinds);
        assert(st.stats.queries + line_queries(l) =~= st.stats.queries);
    } else {
        assert(st.stats.kinds.push("QS"@) =~= st.stats.kinds + seq!["QS"@]);
        assert(st.stats.kinds.push("CARD"@) =~= st.stats.kinds + seq!["CARD"@]);
        assert(st.stats.kinds.push("DOC_OPEN"@) =~= st.stats.kinds + seq!["DOC_OPEN"@]);
        assert(st.stats.kinds + Seq::empty() =~= st.stats.kinds);
        assert(st.stats.queries + Seq::empty() =~= st.stats.queries);
        if let Some(q) = query_of(l) {
            assert(st.stats.queries.push(q) =~= st.stats.queries + seq![q]);
        }
    }
}

/// The kinds and queries a scan records are those of its lines, in order.
pub proof fn lemma_scan_kinds(segs: Seq<Seq<char>>)
    ensures
        scan_segments(segs).stats.kinds == segs_kinds(segs),
        scan_segments(segs).stats.queries == segs_queries(segs),
    decreases segs.len(),
{
    if segs.len() > 0 {
        lemma_scan_kinds(segs.drop_last());
        let l = trim(segs.last());
        lemma_step_kinds(scan_segments(segs.drop_last()), l, crate::scan::line_ts(l));
    }
}

pub proof fn lemma_segs_append(a: Seq<Seq<char>>, b: Seq<Seq<char>>)
    ensures
        segs_kinds(a + b) == segs_kinds(a) + segs_kinds(b),
        segs_queries(a + b) == segs_queries(a) + segs_queries(b),
    decreases b.len(),
{
    if b.len() == 0 {
        assert(a + b =~= a);
        assert(segs_kinds(a) + segs_kinds(b) =~= segs_kinds(a));
        assert(segs_queries(a) + segs_queries(b) =~= segs_queries(a));
    } else {
        lemma_segs_append(a, b.drop_last());
        assert((a + b).drop_last() =~= a + b.drop_last());
        assert((a + b).last() == b.last());
        assert(segs_kinds(a + b) =~= segs_kinds(a) + segs_kinds(b));
        assert(segs_queries(a + b) =~= segs_queries(a) + segs_queries(b));
    }
}


/// A character a rendered timestamp may hold.
pub open spec fn ts_char(c: char) -> bool {
    is_digit(c) || c == '.' || c == '_' || c == ':' || c == '-'
}

/// A non-empty text of digits.
pub open spec fn digits(s: Seq<char>) -> bool {
    s.len() > 0 && forall|i: int| 0 <= i < s.len() ==> is_digit(#[trigger] s[i])
}

proof fn lemma_dec_digits(n: nat)
    ensures
        digits(dec(n)),
    decreases n,
{
    if n >= 10 {
        lemma_dec_digits(n / 10);
    }
}

proof fn lemma_pad_digits(s: Seq<char>, w: nat)
    requires
        digits(s),
    ensures
        digits(zero_pad(s, w)),
        zero_pad(s, w).last() == s.last(),
{
}

/// A rendered timestamp is a non-empty text of timestamp characters that
/// starts and ends with a digit.
pub proof fn lemma_fmt_ts(t: i64)
    ensures
        fmt_ts_spec(t).len() > 0,
        forall|i: int| 0 <= i < fmt_ts_spec(t).len() ==> ts_char(#[trigger] fmt_ts_spec(t)[i]),
        is_digit(fmt_ts_spec(t)[0]),
        is_digit(fmt_ts_spec(t).last()),
{
    let date = civil_date(t / 86400);
    let tod = t % 86400;
    let f = (date.0, date.1, date.2, tod / 3600, tod / 60 % 60, tod % 60);
    lemma_dec_digits(f.2 as nat);
    lemma_dec_digits(f.1 as nat);
    lemma_dec_digits(f.3 as nat);
    lemma_dec_digits(f.4 as nat);
    lemma_dec_digits(f.5 as nat);
    lemma_pad_digits(dec(f.2 as nat), 2);
    lemma_pad_digits(dec(f.1 as nat), 2);
    lemma_pad_digits(dec(f.3 as nat), 2);
    lemma_pad_digits(dec(f.4 as nat), 2);
    lemma_pad_digits(dec(f.5 as nat), 2);
    let y = f.0 as int;
    if y < 0 {
        lemma_dec_digits((-y) as nat);
        lemma_pad_digits(dec((-y) as nat), 3);
    } else {
        lemma_dec_digits(y as nat);
        lemma_pad_digits(dec(y as nat), 4);
    }
    let yr = fmt_int(y, 4);
    assert forall|i: int| 0 <= i < yr.len() implies ts_char(#[trigger] yr[i]) by {
        if y < 0 && i > 0 {
            assert(yr[i] == zero_pad(dec((-y) as nat), 3)[i - 1]);
        }
    }
    let s = fmt_ts_spec(t);
    let d = zero_pad(dec(f.2 as nat), 2);
    let mo = zero_pad(dec(f.1 as nat), 2);
    let h = zero_pad(dec(f.3 as nat), 2);
    let mi = zero_pad(dec(f.4 as nat), 2);
    let se = zero_pad(dec(f.5 as nat), 2);
    assert(s =~= d + seq!['.'] + mo + seq!['.'] + yr + seq!['_'] + h + seq![':'] + mi + seq![':']
        + se);
    assert forall|i: int| 0 <= i < s.len() implies ts_char(#[trigger] s[i]) by {
        let a0 = d.len() as int;
        let a1 = a0 + 1 + mo.len();
        let a2 = a1 + 1 + yr.len();
        let a3 = a2 + 1 + h.len();
        let a4 = a3 + 1 + mi.len();
        if i < a0 {
            assert(s[i] == d[i]);
        } else if i == a0 {
        } else if i < a1 {
            assert(s[i] == mo[i - a0 - 1]);
        } else if i == a1 {
        } else if i < a2 {
            assert(s[i] == yr[i - a1 - 1]);
        } else if i == a2 {
        } else if i < a3 {
            assert(s[i] == h[i - a2 - 1]);
        } else if i == a3 {
        } else if i < a4 {
            assert(s[i] == mi[i - a3 - 1]);
        } else if i == a4 {
        } else {
            assert(s[i] == se[i - a4 - 1]);
        }
    }
    assert(s[0] == d[0]);
    assert(s.last() == se.last());
}


/// The result line of a search, without its line break.
pub open spec fn result_line(search_id: u64, docs: Seq<Seq<char>>) -> Seq<char> {
    dec(search_id as nat) + seq![' '] + join_words(docs)
}

/// The parameter lines of a card search, without line breaks.
pub open spec fn param_lines(ps: Seq<(u32, Seq<char>)>) -> Seq<Seq<char>>
    decreases ps.len(),
{
    if ps.len() == 0 {
        Seq::empty()
    } else {
        param_lines(ps.drop_last()).push(
            seq!['$'] + dec(ps.last().0 as nat) + seq![' '] + ps.last().1,
        )
    }
}

/// The lines an event writes, without line breaks.
pub open spec fn event_lines(b: BodyView, t: i64, last: Option<u64>) -> Seq<Seq<char>> {
    match b {
        BodyView::Query { query, search_id, docs } => seq![
            "QS "@ + fmt_ts_spec(t) + " {"@ + query + "}"@,
            result_line(search_id, docs),
        ],
        BodyView::Card { search_id, params, docs } => seq![
            "CARD_SEARCH_START "@ + fmt_ts_spec(t),
        ] + param_lines(params) + seq!["CARD_SEARCH_END"@, result_line(search_id, docs)],
        BodyView::Open { doc } => match last {
            Some(s) => seq![
                "DOC_OPEN "@ + fmt_ts_spec(t) + seq![' '] + dec(s as nat) + seq![' '] + doc,
            ],
            None => Seq::empty(),
        },
        BodyView::Idle => Seq::empty(),
    }
}

/// The lines of a sequence of events, without line breaks.
pub open spec fn events_lines(start: i64, evs: Seq<EventView>) -> Seq<Seq<char>>
    decreases evs.len(),
{
    if evs.len() == 0 {
        Seq::empty()
    } else {
        events_lines(start, evs.drop_last()) + event_lines(
            evs.last().body,
            (start + gap_total(evs)) as i64,
            last_search(evs.drop_last()),
        )
    }
}

/// The lines of a rendered plan, without line breaks.
pub open spec fn render_lines(p: PlanView) -> Seq<Seq<char>> {
    seq!["SESSION_START "@ + fmt_ts_spec(p.start)] + events_lines(p.start, p.events) + seq![
        "SESSION_END "@ + fmt_ts_spec(plan_end(p) as i64),
    ]
}

proof fn lemma_unlines_one(l: Seq<char>)
    ensures
        unlines(seq![l]) == l + seq!['\n'],
{
    assert(seq![l].drop_last() =~= Seq::<Seq<char>>::empty());
    assert(unlines(Seq::<Seq<char>>::empty()) == Seq::<char>::empty());
    assert(Seq::<char>::empty() + l =~= l);
    assert(unlines(seq![l]) =~= l + seq!['\n']);
}

proof fn lemma_unlines_two(a: Seq<char>, b: Seq<char>)
    ensures
        unlines(seq![a, b]) == a + seq!['\n'] + b + seq!['\n'],
{
    assert(seq![a, b].drop_last() =~= seq![a]);
    lemma_unlines_one(a);
    assert(unlines(seq![a, b]) =~= a + seq!['\n'] + b + seq!['\n']);
}

proof fn lemma_params_unlines(ps: Seq<(u32, Seq<char>)>)
    ensures
        unlines(param_lines(ps)) == params_text(ps),
    decreases ps.len(),
{
    if ps.len() > 0 {
        lemma_params_unlines(ps.drop_last());
        assert(param_lines(ps).drop_last() =~= param_lines(ps.drop_last()));
        assert(unlines(param_lines(ps)) =~= params_text(ps));
    }
}

proof fn lemma_event_unlines(b: BodyView, t: i64, last: Option<u64>)
    ensures
        unlines(event_lines(b, t, last)) == event_text(b, t, last),
{
    reveal_strlit("QS ");
    reveal_strlit(" {");
    reveal_strlit("}");
    reveal_strlit("}\n");
    reveal_strlit("CARD_SEARCH_START ");
    reveal_strlit("\n");
    reveal_strlit("CARD_SEARCH_END");
    reveal_strlit("CARD_SEARCH_END\n");
    reveal_strlit("DOC_OPEN ");
    let ts = fmt_ts_spec(t);
    match b {
        BodyView::Query { query, search_id, docs } => {
            let a = "QS "@ + ts + " {"@ + query + "}"@;
            let r = result_line(search_id, docs);
            lemma_unlines_two(a, r);
            assert(unlines(event_lines(b, t, last)) =~= event_text(b, t, last));
        },
        BodyView::Card { search_id, params, docs } => {
            let a = seq!["CARD_SEARCH_START "@ + ts];
            let m = param_lines(params);
            let z = seq!["CARD_SEARCH_END"@, result_line(search_id, docs)];
            lemma_unlines_append(a + m, z);
            lemma_unlines_append(a, m);
            lemma_unlines_one("CARD_SEARCH_START "@ + ts);
            lemma_unlines_two("CARD_SEARCH_END"@, result_line(search_id, docs));
            lemma_params_unlines(params);
            assert(unlines(event_lines(b, t, last)) =~= event_text(b, t, last));
        },
        BodyView::Open { doc } => {
            match last {
                Some(s) => {
                    lemma_unlines_one(
                        "DOC_OPEN "@ + ts + seq![' '] + dec(s as nat) + seq![' '] + doc,
                    );
                    assert(unlines(event_lines(b, t, last)) =~= event_text(b, t, last));
                },
                None => {
                    assert(unlines(event_lines(b, t, last)) =~= event_text(b, t, last));
                },
            }
        },
        BodyView::Idle => {
            assert(unlines(event_lines(b, t, last)) =~= event_text(b, t, last));
        },
    }
}

proof fn lemma_events_unlines(start: i64, evs: Seq<EventView>)
    ensures
        unlines(events_lines(start, evs)) == events_text(start, evs),
    decreases evs.len(),
{
    if evs.len() > 0 {
        let p = evs.drop_last();
        lemma_events_unlines(start, p);
        let t = (start + gap_total(evs)) as i64;
        lemma_event_unlines(evs.last().body, t, last_search(p));
        lemma_unlines_append(
            events_lines(start, p),
            event_lines(evs.last().body, t, last_search(p)),
        );
    }
}

/// A rendered plan is its lines, each followed by a line break.
pub proof fn lemma_render_unlines(p: PlanView)
    ensures
        unlines(render_lines(p)) == render_text(p),
{
    reveal_strlit("SESSION_START ");
    reveal_strlit("SESSION_END ");
    reveal_strlit("\n");
    let h = seq!["SESSION_START "@ + fmt_ts_spec(p.start)];
    let m = events_lines(p.start, p.events);
    let f = seq!["SESSION_END "@ + fmt_ts_spec(plan_end(p) as i64)];
    lemma_unlines_append(h + m, f);
    lemma_unlines_append(h, m);
    lemma_unlines_one("SESSION_START "@ + fmt_ts_spec(p.start));
    lemma_unlines_one("SESSION_END "@ + fmt_ts_spec(plan_end(p) as i64));
    lemma_events_unlines(p.start, p.events);
    assert(unlines(render_lines(p)) =~= render_text(p));
}


/// Every line is free of line breaks.
pub open spec fn all_single(ls: Seq<Seq<char>>) -> bool {
    forall|i: int| 0 <= i < ls.len() ==> no_newline(#[trigger] ls[i])
}

/// The texts an event body writes hold no line break.
pub open spec fn body_single_line(b: BodyView) -> bool {
    match b {
        BodyView::Query { query, docs, .. } => no_newline(query) && all_single(docs),
        BodyView::Card { params, docs, .. } => (forall|i: int|
            0 <= i < params.len() ==> no_newline(#[trigger] params[i].1)) && all_single(docs),
        BodyView::Open { doc } => no_newline(doc),
        BodyView::Idle => true,
    }
}

/// The texts a plan writes (queries, document ids, parameter values) hold no
/// line break.
pub open spec fn plan_single_line(p: PlanView) -> bool {
    forall|k: int| 0 <= k < p.events.len() ==> body_single_line(#[trigger] p.events[k].body)
}

/// The event kind an event records when scanned.
pub open spec fn event_kinds(b: BodyView, last: Option<u64>) -> Seq<Seq<char>> {
    match b {
        BodyView::Query { .. } => seq!["QS"@],
        BodyView::Card { .. } => seq!["CARD"@],
        BodyView::Open { .. } => if last is Some {
            seq!["DOC_OPEN"@]
        } else {
            Seq::empty()
        },
        BodyView::Idle => Seq::empty(),
    }
}

/// The query an event records when scanned.
pub open spec fn event_queries(b: BodyView) -> Seq<Seq<char>> {
    match b {
        BodyView::Query { query, .. } => seq![query],
        _ => Seq::empty(),
    }
}

/// The event kinds a sequence of events writes.
pub open spec fn events_kinds(evs: Seq<EventView>) -> Seq<Seq<char>>
    decreases evs.len(),
{
    if evs.len() == 0 {
        Seq::empty()
    } else {
        events_kinds(evs.drop_last()) + event_kinds(evs.last().body, last_search(evs.drop_last()))
    }
}

/// The queries a sequence of events writes.
pub open spec fn events_queries(evs: Seq<EventView>) -> Seq<Seq<char>>
    decreases evs.len(),
{
    if evs.len() == 0 {
        Seq::empty()
    } else {
        events_queries(evs.drop_last()) + event_queries(evs.last().body)
    }
}

proof fn lemma_nn_concat(a: Seq<char>, b: Seq<char>)
    requires
        no_newline(a),
        no_newline(b),
    ensures
        no_newline(a + b),
{
    assert forall|i: int| 0 <= i < (a + b).len() implies (a + b)[i] != '\n' by {
        if i < a.len() {
            assert((a + b)[i] == a[i]);
        } else {
            assert((a + b)[i] == b[i - a.len()]);
        }
    }
}

proof fn lemma_all_single_concat(a: Seq<Seq<char>>, b: Seq<Seq<char>>)
    requires
        all_single(a),
        all_single(b),
    ensures
        all_single(a + b),
{
    assert forall|i: int| 0 <= i < (a + b).len() implies no_newline(#[trigger] (a + b)[i]) by {
        if i < a.len() {
            assert((a + b)[i] == a[i]);
        } else {
            assert((a + b)[i] == b[i - a.len()]);
        }
    }
}

proof fn lemma_digits_nn(s: Seq<char>)
    requires
        digits(s),
    ensures
        no_newline(s),
{
    assert forall|i: int| 0 <= i < s.len() implies s[i] != '\n' by {
        assert(is_digit(s[i]));
    }
}

proof fn lemma_ts_nn(t: i64)
    ensures
        no_newline(fmt_ts_spec(t)),
{
    lemma_fmt_ts(t);
    assert forall|i: int| 0 <= i < fmt_ts_spec(t).len() implies fmt_ts_spec(t)[i] != '\n' by {
        assert(ts_char(fmt_ts_spec(t)[i]));
    }
}

proof fn lemma_join_nn(ws: Seq<Seq<char>>)
    requires
        all_single(ws),
    ensures
        no_newline(join_words(ws)),
    decreases ws.len(),
{
    if ws.len() == 1 {
        assert(no_newline(ws[0]));
    } else if ws.len() > 1 {
        let p = ws.drop_last();
        assert forall|i: int| 0 <= i < p.len() implies no_newline(#[trigger] p[i]) by {
            assert(p[i] == ws[i]);
        }
        lemma_join_nn(p);
        assert(no_newline(ws[ws.len() - 1]));
        lemma_nn_concat(join_words(p), seq![' ']);
        lemma_nn_concat(join_words(p) + seq![' '], ws.last());
    }
}

proof fn lemma_result_line(search_id: u64, docs: Seq<Seq<char>>)
    ensures
        result_line(search_id, docs).len() > 0,
        is_digit(result_line(search_id, docs)[0]),
        all_single(docs) ==> no_newline(result_line(search_id, docs)),
{
    lemma_dec_digits(search_id as nat);
    assert(result_line(search_id, docs)[0] == dec(search_id as nat)[0]);
    if all_single(docs) {
        lemma_digits_nn(dec(search_id as nat));
        lemma_join_nn(docs);
        lemma_nn_concat(dec(search_id as nat), seq![' ']);
        lemma_nn_concat(dec(search_id as nat) + seq![' '], join_words(docs));
    }
}

proof fn lemma_param_lines(ps: Seq<(u32, Seq<char>)>)
    ensures
        forall|i: int|
            0 <= i < param_lines(ps).len() ==> (#[trigger] param_lines(ps)[i]).len() > 0
                && param_lines(ps)[i][0] == '$',
        (forall|i: int| 0 <= i < ps.len() ==> no_newline(#[trigger] ps[i].1)) ==> all_single(
            param_lines(ps),
        ),
        segs_kinds(param_lines(ps)) == Seq::<Seq<char>>::empty(),
        segs_queries(param_lines(ps)) == Seq::<Seq<char>>::empty(),
    decreases ps.len(),
{
    if ps.len() > 0 {
        let p = ps.drop_last();
        lemma_param_lines(p);
        let l = seq!['$'] + dec(ps.last().0 as nat) + seq![' '] + ps.last().1;
        assert(param_lines(ps) == param_lines(p).push(l));
        assert(l[0] == '$');
        if forall|i: int| 0 <= i < ps.len() ==> no_newline(#[trigger] ps[i].1) {
            assert forall|i: int| 0 <= i < p.len() implies no_newline(#[trigger] p[i].1) by {
                assert(p[i] == ps[i]);
            }
            lemma_dec_digits(ps.last().0 as nat);
            lemma_digits_nn(dec(ps.last().0 as nat));
            assert(no_newline(ps[ps.len() - 1].1));
            lemma_nn_concat(seq!['$'], dec(ps.last().0 as nat));
            lemma_nn_concat(seq!['$'] + dec(ps.last().0 as nat), seq![' ']);
            lemma_nn_concat(seq!['$'] + dec(ps.last().0 as nat) + seq![' '], ps.last().1);
            assert forall|i: int| 0 <= i < param_lines(ps).len() implies no_newline(
                #[trigger] param_lines(ps)[i],
            ) by {
                if i < param_lines(p).len() {
                    assert(param_lines(ps)[i] == param_lines(p)[i]);
                }
            }
        }
        lemma_no_kind(l);
        assert(param_lines(ps).drop_last() =~= param_lines(p));
        assert(segs_kinds(param_lines(ps)) =~= Seq::<Seq<char>>::empty());
        assert(segs_queries(param_lines(ps)) =~= Seq::<Seq<char>>::empty());
    }
}

/// A line that does not start with whitespace, `Q`, `C` or `D` records no
/// event kind and no query.
proof fn lemma_no_kind(l: Seq<char>)
    requires
        l.len() > 0,
        !is_ws(l[0]),
        l[0] != 'Q',
        l[0] != 'C',
        l[0] != 'D',
    ensures
        line_kinds(trim(l)) == Seq::<Seq<char>>::empty(),
        line_queries(trim(l)) == Seq::<Seq<char>>::empty(),
{
    reveal_strlit("QS ");
    reveal_strlit("CARD_SEARCH_START");
    reveal_strlit("DOC_OPEN");
    lemma_trim_first(l);
    let t = trim(l);
    if has_prefix(t, "QS "@) {
        assert(t.subrange(0, 3)[0] == t[0]);
    }
    if has_prefix(t, "CARD_SEARCH_START"@) {
        assert(t.subrange(0, 17)[0] == t[0]);
    }
    if has_prefix(t, "DOC_OPEN"@) {
        assert(t.subrange(0, 8)[0] == t[0]);
    }
}

proof fn lemma_segs_one(l: Seq<char>)
    ensures
        segs_kinds(seq![l]) == line_kinds(trim(l)),
        segs_queries(seq![l]) == line_queries(trim(l)),
{
    assert(seq![l].drop_last() =~= Seq::<Seq<char>>::empty());
    assert(seq![l].last() == l);
    assert(segs_kinds(Seq::<Seq<char>>::empty()) == Seq::<Seq<char>>::empty());
    assert(segs_queries(Seq::<Seq<char>>::empty()) == Seq::<Seq<char>>::empty());
    assert(Seq::<Seq<char>>::empty() + line_kinds(trim(l)) =~= line_kinds(trim(l)));
    assert(Seq::<Seq<char>>::empty() + line_queries(trim(l)) =~= line_queries(trim(l)));
}

proof fn lemma_segs_two(a: Seq<char>, b: Seq<char>)
    ensures
        segs_kinds(seq![a, b]) == line_kinds(trim(a)) + line_kinds(trim(b)),
        segs_queries(seq![a, b]) == line_queries(trim(a)) + line_queries(trim(b)),
{
    assert(seq![a, b].drop_last() =~= seq![a]);
    assert(seq![a, b].last() == b);
    lemma_segs_one(a);
}

proof fn lemma_find_from(s: Seq<char>, c: char, i: int, j: int)
    requires
        0 <= i <= j < s.len(),
        s[j] == c,
        forall|k: int| i <= k < j ==> s[k] != c,
    ensures
        find_from(s, c, i) == Some(j),
    decreases j - i,
{
    if i < j {
        lemma_find_from(s, c, i + 1, j);
    }
}

/// A rendered quick-search line records the kind `QS` and its query.
proof fn lemma_qs_line(ts: Seq<char>, q: Seq<char>)
    requires
        ts.len() > 0,
        forall|i: int| 0 <= i < ts.len() ==> ts_char(#[trigger] ts[i]),
    ensures
        line_kinds(trim("QS "@ + ts + " {"@ + q + "}"@)) == seq!["QS"@],
        line_queries(trim("QS "@ + ts + " {"@ + q + "}"@)) == seq![q],
{
    reveal_strlit("QS ");
    reveal_strlit(" {");
    reveal_strlit("}");
    let l = "QS "@ + ts + " {"@ + q + "}"@;
    assert(l[0] == 'Q');
    assert(l[l.len() - 1] == '}');
    lemma_trim_id(l);
    assert(l.subrange(0, 3) =~= "QS "@);
    let j: int = 3 + ts.len() as int + 1;
    assert(l[j] == '{');
    assert forall|k: int| 0 <= k < j implies l[k] != '{' by {
        if 3 <= k < 3 + ts.len() {
            assert(l[k] == ts[k - 3]);
            assert(ts_char(ts[k - 3]));
        }
    }
    lemma_find_from(l, '{', 0, j);
    assert(rfind_before(l, '}', l.len() as int) == Some(l.len() - 1 as int));
    assert(l.subrange(j + 1, l.len() - 1) =~= q);
}

/// A quick-search line `QS <ts> {<q>}` gives back its query `q` unchanged,
/// braces inside `q` included, whenever the timestamp token holds no `{`.
pub proof fn law_query_round_trip(ts: Seq<char>, q: Seq<char>)
    requires
        forall|i: int| 0 <= i < ts.len() ==> #[trigger] ts[i] != '{',
    ensures
        query_of("QS "@ + ts + " {"@ + q + "}"@) == Some(q),
{
    reveal_strlit("QS ");
    reveal_strlit(" {");
    reveal_strlit("}");
    let l = "QS "@ + ts + " {"@ + q + "}"@;
    let j: int = 3 + ts.len() as int + 1;
    assert(l[j] == '{');
    assert forall|k: int| 0 <= k < j implies l[k] != '{' by {
        if 3 <= k < 3 + ts.len() {
            assert(l[k] == ts[k - 3]);
        }
    }
    lemma_find_from(l, '{', 0, j);
    assert(l[l.len() - 1] == '}');
    assert(rfind_before(l, '}', l.len() as int) == Some(l.len() - 1 as int));
    assert(l.subrange(j + 1, l.len() - 1) =~= q);
}

/// What a rendered event records when scanned: its kind and query.
proof fn lemma_event_kinds(b: BodyView, t: i64, last: Option<u64>)
    ensures
        segs_kinds(event_lines(b, t, last)) == event_kinds(b, last),
        segs_queries(event_lines(b, t, last)) == event_queries(b),
{
    reveal_strlit("QS ");
    reveal_strlit("CARD_SEARCH_START");
    reveal_strlit("CARD_SEARCH_START ");
    reveal_strlit("CARD_SEARCH_END");
    reveal_strlit("DOC_OPEN");
    reveal_strlit("DOC_OPEN ");
    let ts = fmt_ts_spec(t);
    lemma_fmt_ts(t);
    match b {
        BodyView::Query { query, search_id, docs } => {
            let a = "QS "@ + ts + " {"@ + query + "}"@;
            let r = result_line(search_id, docs);
            lemma_segs_two(a, r);
            lemma_qs_line(ts, query);
            lemma_result_line(search_id, docs);
            lemma_no_kind(r);
            assert(seq!["QS"@] + Seq::<Seq<char>>::empty() =~= seq!["QS"@]);
            assert(seq![query] + Seq::<Seq<char>>::empty() =~= seq![query]);
        },
        BodyView::Card { search_id, params, docs } => {
            let a = "CARD_SEARCH_START "@ + ts;
            let e = "CARD_SEARCH_END"@;
            let r = result_line(search_id, docs);
            let m = param_lines(params);
            lemma_segs_append(seq![a] + m, seq![e, r]);
            lemma_segs_append(seq![a], m);
            lemma_segs_one(a);
            lemma_segs_two(e, r);
            lemma_param_lines(params);
            lemma_result_line(search_id, docs);
            lemma_no_kind(r);
            // the card start line is its own trim and starts with the card prefix
            assert(a[0] == 'C');
            assert(a[a.len() - 1] == ts[ts.len() - 1]);
            lemma_trim_id(a);
            assert(a.subrange(0, 17) =~= "CARD_SEARCH_START"@);
            // the card end line is too short for the card start prefix
            assert(e[0] == 'C');
            assert(e[e.len() - 1] == 'D');
            lemma_trim_id(e);
            assert(line_kinds(e) =~= Seq::<Seq<char>>::empty()) by {
                if has_prefix(e, "DOC_OPEN"@) {
                    assert(e.subrange(0, 8)[0] == e[0]);
                }
                if has_prefix(e, "QS "@) {
                    assert(e.subrange(0, 3)[0] == e[0]);
                }
            }
            assert(line_queries(e) =~= Seq::<Seq<char>>::empty()) by {
                if has_prefix(e, "QS "@) {
                    assert(e.subrange(0, 3)[0] == e[0]);
                }
            }
            assert(line_kinds(a) == seq!["CARD"@]) by {
                if has_prefix(a, "QS "@) {
                    assert(a.subrange(0, 3)[0] == a[0]);
                }
            }
            assert(line_queries(a) =~= Seq::<Seq<char>>::empty()) by {
                if has_prefix(a, "QS "@) {
                    assert(a.subrange(0, 3)[0] == a[0]);
                }
            }
            assert(segs_kinds(event_lines(b, t, last)) =~= event_kinds(b, last));
            assert(segs_queries(event_lines(b, t, last)) =~= event_queries(b));
        },
        BodyView::Open { doc } => {
            match last {
                Some(s) => {
                    let l = "DOC_OPEN "@ + ts + seq![' '] + dec(s as nat) + seq![' '] + doc;
                    lemma_segs_one(l);
                    assert(l.subrange(0, 8) =~= "DOC_OPEN"@);
                    lemma_trim_prefix(l, "DOC_OPEN"@);
                    lemma_trim_first(l);
                    let tl = trim(l);
                    assert(tl[0] == 'D');
                    assert(line_kinds(tl) == seq!["DOC_OPEN"@]) by {
                        if has_prefix(tl, "QS "@) {
                            assert(tl.subrange(0, 3)[0] == tl[0]);
                        }
                        if has_prefix(tl, "CARD_SEARCH_START"@) {
                            assert(tl.subrange(0, 17)[0] == tl[0]);
                        }
                    }
                    assert(line_queries(tl) =~= Seq::<Seq<char>>::empty()) by {
                        if has_prefix(tl, "QS "@) {
                            assert(tl.subrange(0, 3)[0] == tl[0]);
                        }
                    }
                },
                None => {},
            }
        },
        BodyView::Idle => {},
    }
}

proof fn lemma_events_kinds(start: i64, evs: Seq<EventView>)
    ensures
        segs_kinds(events_lines(start, evs)) == events_kinds(evs),
        segs_queries(events_lines(start, evs)) == events_queries(evs),
    decreases evs.len(),
{
    if evs.len() > 0 {
        let p = evs.drop_last();
        lemma_events_kinds(start, p);
        let t = (start + gap_total(evs)) as i64;
        lemma_event_kinds(evs.last().body, t, last_search(p));
        lemma_segs_append(events_lines(start, p), event_lines(evs.last().body, t, last_search(p)));
    }
}


proof fn lemma_event_single(b: BodyView, t: i64, last: Option<u64>)
    requires
        body_single_line(b),
    ensures
        all_single(event_lines(b, t, last)),
{
    reveal_strlit("QS ");
    reveal_strlit(" {");
    reveal_strlit("}");
    reveal_strlit("CARD_SEARCH_START ");
    reveal_strlit("CARD_SEARCH_END");
    reveal_strlit("DOC_OPEN ");
    let ts = fmt_ts_spec(t);
    lemma_ts_nn(t);
    match b {
        BodyView::Query { query, search_id, docs } => {
            let a = "QS "@ + ts + " {"@ + query + "}"@;
            lemma_nn_concat("QS "@, ts);
            lemma_nn_concat("QS "@ + ts, " {"@);
            lemma_nn_concat("QS "@ + ts + " {"@, query);
            lemma_nn_concat("QS "@ + ts + " {"@ + query, "}"@);
            lemma_result_line(search_id, docs);
            assert(all_single(event_lines(b, t, last)));
        },
        BodyView::Card { search_id, params, docs } => {
            let a = "CARD_SEARCH_START "@ + ts;
            lemma_nn_concat("CARD_SEARCH_START "@, ts);
            lemma_param_lines(params);
            lemma_result_line(search_id, docs);
            let r = result_line(search_id, docs);
            assert(all_single(seq![a]));
            assert(all_single(seq!["CARD_SEARCH_END"@, r]));
            lemma_all_single_concat(seq![a], param_lines(params));
            lemma_all_single_concat(seq![a] + param_lines(params), seq!["CARD_SEARCH_END"@, r]);
        },
        BodyView::Open { doc } => {
            match last {
                Some(s) => {
                    lemma_dec_digits(s as nat);
                    lemma_digits_nn(dec(s as nat));
                    lemma_nn_concat("DOC_OPEN "@, ts);
                    lemma_nn_concat("DOC_OPEN "@ + ts, seq![' ']);
                    lemma_nn_concat("DOC_OPEN "@ + ts + seq![' '], dec(s as nat));
                    lemma_nn_concat("DOC_OPEN "@ + ts + seq![' '] + dec(s as nat), seq![' ']);
                    lemma_nn_concat(
                        "DOC_OPEN "@ + ts + seq![' '] + dec(s as nat) + seq![' '],
                        doc,
                    );
                    assert(all_single(event_lines(b, t, last)));
                },
                None => {},
            }
        },
        BodyView::Idle => {},
    }
}

proof fn lemma_events_single(start: i64, evs: Seq<EventView>)
    requires
        forall|k: int| 0 <= k < evs.len() ==> body_single_line(#[trigger] evs[k].body),
    ensures
        all_single(events_lines(start, evs)),
    decreases evs.len(),
{
    if evs.len() > 0 {
        let p = evs.drop_last();
        assert forall|k: int| 0 <= k < p.len() implies body_single_line(#[trigger] p[k].body) by {
            assert(p[k] == evs[k]);
        }
        lemma_events_single(start, p);
        let t = (start + gap_total(evs)) as i64;
        assert(body_single_line(evs[evs.len() - 1].body));
        lemma_event_single(evs.last().body, t, last_search(p));
        lemma_all_single_concat(
            events_lines(start, p),
            event_lines(evs.last().body, t, last_search(p)),
        );
    }
}

/// Scanning a rendered session gives back, in order, the kind of every event
/// the plan wrote (`QS`, `CARD`, and `DOC_OPEN` for documents opened after a
/// search), one counted event per kind, and the query of every quick search,
/// provided the plan's texts hold no line breaks.
pub proof fn law_render_scan(p: PlanView)
    requires
        plan_single_line(p),
    ensures
        scan_text(render_text(p)).kinds == events_kinds(p.events),
        scan_text(render_text(p)).queries == events_queries(p.events),
        scan_text(render_text(p)).event_count == events_kinds(p.events).len(),
{
    reveal_strlit("SESSION_START ");
    reveal_strlit("SESSION_END ");
    reveal_strlit("QS ");
    reveal_strlit("CARD_SEARCH_START");
    reveal_strlit("DOC_OPEN");
    let h = "SESSION_START "@ + fmt_ts_spec(p.start);
    let f = "SESSION_END "@ + fmt_ts_spec(plan_end(p) as i64);
    let m = events_lines(p.start, p.events);
    let r = render_lines(p);
    lemma_ts_nn(p.start);
    lemma_ts_nn(plan_end(p) as i64);
    lemma_nn_concat("SESSION_START "@, fmt_ts_spec(p.start));
    lemma_nn_concat("SESSION_END "@, fmt_ts_spec(plan_end(p) as i64));
    lemma_events_single(p.start, p.events);
    lemma_all_single_concat(seq![h], m);
    lemma_all_single_concat(seq![h] + m, seq![f]);
    lemma_render_unlines(p);
    lemma_segments_unlines(r);
    let segs = r.push(Seq::empty());
    lemma_scan_kinds(segs);
    assert(segs.drop_last() =~= r);
    assert(trim(Seq::<char>::empty()) =~= Seq::<char>::empty());
    assert(line_kinds(Seq::<char>::empty()) =~= Seq::<Seq<char>>::empty());
    assert(line_queries(Seq::<char>::empty()) =~= Seq::<Seq<char>>::empty());
    lemma_segs_append(seq![h] + m, seq![f]);
    lemma_segs_append(seq![h], m);
    lemma_segs_one(h);
    lemma_segs_one(f);
    assert(h[0] == 'S');
    assert(f[0] == 'S');
    lemma_no_kind(h);
    lemma_no_kind(f);
    lemma_events_kinds(p.start, p.events);
    assert(segs_kinds(segs) =~= events_kinds(p.events));
    assert(segs_queries(segs) =~= events_queries(p.events));
    crate::laws::law_scan_consistent(render_text(p));
}


/// The texts of distributions (queries and document ids) hold no line breaks.
pub open spec fn dist_single_line(d: DistView) -> bool {
    &&& forall|i: int| 0 <= i < d.queries.len() ==> no_newline(#[trigger] d.queries[i])
    &&& forall|i: int| 0 <= i < d.doc_ids.len() ==> no_newline(#[trigger] d.doc_ids[i].0)
}

proof fn lemma_pick_single(s: Seq<Seq<char>>, x: Seq<char>, default: Seq<char>)
    requires
        all_single(s),
        no_newline(default),
        pick_or(s, x, default),
    ensures
        no_newline(x),
{
    if s.len() > 0 {
        let i = choose|i: int| 0 <= i < s.len() && s[i] == x;
        assert(no_newline(s[i]));
    }
}

proof fn lemma_body_single(b: BodyView, kind: Seq<char>, d: DistView, searched: bool)
    requires
        dist_single_line(d),
        body_fits(b, kind, d, searched),
    ensures
        body_single_line(b),
{
    reveal_strlit("test");
    reveal_strlit("LAW_0");
    let names = doc_names(d);
    assert(all_single(names)) by {
        assert forall|i: int| 0 <= i < names.len() implies no_newline(#[trigger] names[i]) by {
            assert(names[i] == d.doc_ids[i].0);
        }
    }
    assert(all_single(d.queries));
    assert(no_newline(Seq::<char>::empty()));
    match b {
        BodyView::Query { query, search_id, docs } => {
            if kind == "QS"@ {
                lemma_pick_single(d.queries, query, "test"@);
                assert forall|i: int| 0 <= i < docs.len() implies no_newline(#[trigger] docs[i]) by {
                    lemma_pick_single(names, docs[i], "LAW_0"@);
                }
            }
        },
        BodyView::Card { search_id, params, docs } => {
            assert forall|i: int| 0 <= i < params.len() implies no_newline(#[trigger] params[i].1) by {
                let pid = params[i].0;
                lemma_pick_single(names, params[i].1, Seq::empty());
            }
            assert forall|i: int| 0 <= i < docs.len() implies no_newline(#[trigger] docs[i]) by {
                lemma_pick_single(names, docs[i], "LAW_0"@);
            }
        },
        BodyView::Open { doc } => {
            lemma_pick_single(names, doc, "LAW_0"@);
        },
        BodyView::Idle => {},
    }
}

/// A session drawn from distributions whose texts hold no line breaks scans
/// back to the kinds of the events it wrote, one counted event per kind, and
/// to the queries of its quick searches.
pub proof fn law_drawn_session_scans_back(d: DistView, now: i64, p: PlanView)
    requires
        dist_single_line(d),
        plan_fits(p, d, now),
    ensures
        scan_text(render_text(p)).kinds == events_kinds(p.events),
        scan_text(render_text(p)).queries == events_queries(p.events),
        scan_text(render_text(p)).event_count == events_kinds(p.events).len(),
{
    assert forall|k: int| 0 <= k < p.events.len() implies body_single_line(
        #[trigger] p.events[k].body,
    ) by {
        assert(event_fits(p.events[k], d, last_search(p.events.take(k)) is Some));
        let i = choose|i: int|
            #![trigger d.event_kinds[i]]
            0 <= i < d.event_kinds.len() && d.event_kinds[i].1 > 0 && body_fits(
                p.events[k].body,
                d.event_kinds[i].0,
                d,
                last_search(p.events.take(k)) is Some,
            );
        lemma_body_single(
            p.events[k].body,
            d.event_kinds[i].0,
            d,
            last_search(p.events.take(k)) is Some,
        );
    }
    law_render_scan(p);
}


/// The document ids a trimmed line records.
pub open spec fn line_docs(l: Seq<char>) -> Seq<Seq<char>> {
    if has_prefix(l, "QS "@) || has_prefix(l, "CARD_SEARCH_START"@) {
        Seq::empty()
    } else if has_prefix(l, "DOC_OPEN"@) {
        if tokens(l).len() > 0 {
            seq![tokens(l).last()]
        } else {
            Seq::empty()
        }
    } else if is_result_line(l) {
        result_docs(l)
    } else {
        Seq::empty()
    }
}

/// The document ids recorded by a sequence of raw segments.
pub open spec fn segs_docs(segs: Seq<Seq<char>>) -> Seq<Seq<char>>
    decreases segs.len(),
{
    if segs.len() == 0 {
        Seq::empty()
    } else {
        segs_docs(segs.drop_last()) + line_docs(trim(segs.last()))
    }
}

proof fn lemma_step_docs(st: ScanView, l: Seq<char>, ts: Option<LogTime>)
    ensures
        line_step(st, l, ts).stats.docs == st.stats.docs + line_docs(l),
{
    reveal_strlit("QS ");
    reveal_strlit("CARD_SEARCH_START");
    reveal_strlit("DOC_OPEN");
    assert(st.stats.docs + Seq::empty() =~= st.stats.docs);
    if l.len() > 0 && has_prefix(l, "DOC_OPEN"@) && tokens(l).len() > 0 {
        assert(st.stats.docs.push(tokens(l).last()) =~= st.stats.docs + seq![tokens(l).last()]);
    }
}

pub proof fn lemma_scan_docs(segs: Seq<Seq<char>>)
    ensures
        scan_segments(segs).stats.docs == segs_docs(segs),
    decreases segs.len(),
{
    if segs.len() > 0 {
        lemma_scan_docs(segs.drop_last());
        let l = trim(segs.last());
        lemma_step_docs(scan_segments(segs.drop_last()), l, crate::scan::line_ts(l));
    }
}

proof fn lemma_segs_docs_append(a: Seq<Seq<char>>, b: Seq<Seq<char>>)
    ensures
        segs_docs(a + b) == segs_docs(a) + segs_docs(b),
    decreases b.len(),
{
    if b.len() == 0 {
        assert(a + b =~= a);
        assert(segs_docs(a) + segs_docs(b) =~= segs_docs(a));
    } else {
        lemma_segs_docs_append(a, b.drop_last());
        assert((a + b).drop_last() =~= a + b.drop_last());
        assert((a + b).last() == b.last());
        assert(segs_docs(a + b) =~= segs_docs(a) + segs_docs(b));
    }
}

proof fn lemma_segs_docs_one(l: Seq<char>)
    ensures
        segs_docs(seq![l]) == line_docs(trim(l)),
{
    assert(seq![l].drop_last() =~= Seq::<Seq<char>>::empty());
    assert(seq![l].last() == l);
    assert(segs_docs(Seq::<Seq<char>>::empty()) == Seq::<Seq<char>>::empty());
    assert(Seq::<Seq<char>>::empty() + line_docs(trim(l)) =~= line_docs(trim(l)));
}

/// A line that starts with none of whitespace, `Q`, `C`, `D`, a digit or `-`
/// records no document id.
proof fn lemma_no_docs(l: Seq<char>)
    requires
        l.len() > 0,
        !is_ws(l[0]),
        l[0] != 'Q',
        l[0] != 'C',
        l[0] != 'D',
        !is_digit(l[0]),
        l[0] != '-',
    ensures
        line_docs(trim(l)) == Seq::<Seq<char>>::empty(),
{
    reveal_strlit("QS ");
    reveal_strlit("CARD_SEARCH_START");
    reveal_strlit("DOC_OPEN");
    lemma_trim_first(l);
    let t = trim(l);
    if has_prefix(t, "QS "@) {
        assert(t.subrange(0, 3)[0] == t[0]);
    }
    if has_prefix(t, "CARD_SEARCH_START"@) {
        assert(t.subrange(0, 17)[0] == t[0]);
    }
    if has_prefix(t, "DOC_OPEN"@) {
        assert(t.subrange(0, 8)[0] == t[0]);
    }
}

/// Words joined by single spaces split back into the words.
proof fn lemma_tokens_join(ws: Seq<Seq<char>>)
    requires
        forall|i: int| 0 <= i < ws.len() ==> is_word(#[trigger] ws[i]),
    ensures
        tokens(join_words(ws)) == ws,
        ws.len() > 0 ==> join_words(ws).len() > 0 && join_words(ws).last() == ws.last().last(),
    decreases ws.len(),
{
    if ws.len() == 0 {
        assert(tokens(Seq::<char>::empty()) =~= Seq::<Seq<char>>::empty());
    } else if ws.len() == 1 {
        lemma_tokens_word(ws[0]);
        assert(seq![ws[0]] =~= ws);
    } else {
        let p = ws.drop_last();
        assert forall|i: int| 0 <= i < p.len() implies is_word(#[trigger] p[i]) by {
            assert(p[i] == ws[i]);
        }
        lemma_tokens_join(p);
        assert(is_word(ws[ws.len() - 1]));
        lemma_tokens_word(ws.last());
        lemma_tokens_space(join_words(p), ws.last());
        assert(p + seq![ws.last()] =~= ws);
    }
}

/// The document texts an event body writes are words, and a search lists at
/// least one.
pub open spec fn body_words(b: BodyView) -> bool {
    match b {
        BodyView::Query { docs, .. } => docs.len() > 0 && forall|i: int|
            0 <= i < docs.len() ==> is_word(#[trigger] docs[i]),
        BodyView::Card { docs, .. } => docs.len() > 0 && forall|i: int|
            0 <= i < docs.len() ==> is_word(#[trigger] docs[i]),
        BodyView::Open { doc } => is_word(doc),
        BodyView::Idle => true,
    }
}

/// The document ids an event records when scanned: the result documents of a
/// search that hold an underscore, and a document opened after a search.
pub open spec fn event_docs(b: BodyView, last: Option<u64>) -> Seq<Seq<char>> {
    match b {
        BodyView::Query { docs, .. } => underscored(docs),
        BodyView::Card { docs, .. } => underscored(docs),
        BodyView::Open { doc } => if last is Some {
            seq![doc]
        } else {
            Seq::empty()
        },
        BodyView::Idle => Seq::empty(),
    }
}

/// The document ids a sequence of events records.
pub open spec fn events_docs(evs: Seq<EventView>) -> Seq<Seq<char>>
    decreases evs.len(),
{
    if evs.len() == 0 {
        Seq::empty()
    } else {
        events_docs(evs.drop_last()) + event_docs(evs.last().body, last_search(evs.drop_last()))
    }
}

proof fn lemma_result_docs(search_id: u64, docs: Seq<Seq<char>>)
    requires
        docs.len() > 0,
        forall|i: int| 0 <= i < docs.len() ==> is_word(#[trigger] docs[i]),
    ensures
        line_docs(trim(result_line(search_id, docs))) == underscored(docs),
{
    reveal_strlit("QS ");
    reveal_strlit("CARD_SEARCH_START");
    reveal_strlit("DOC_OPEN");
    let l = result_line(search_id, docs);
    let d = dec(search_id as nat);
    lemma_dec_digits(search_id as nat);
    lemma_tokens_join(docs);
    assert(is_word(docs[docs.len() - 1]));
    assert(l[0] == d[0]);
    assert(l.last() == join_words(docs).last());
    let lw = docs.last();
    assert(!is_ws(lw[lw.len() - 1]));
    lemma_trim_id(l);
    assert(is_word(d)) by {
        assert forall|i: int| 0 <= i < d.len() implies !is_ws(#[trigger] d[i]) by {
            assert(is_digit(d[i]));
        }
    }
    lemma_tokens_word(d);
    lemma_tokens_space(d, join_words(docs));
    assert(tokens(l) == seq![d] + docs);
    assert((seq![d] + docs).skip(1) =~= docs);
    if has_prefix(l, "QS "@) {
        assert(l.subrange(0, 3)[0] == l[0]);
    }
    if has_prefix(l, "CARD_SEARCH_START"@) {
        assert(l.subrange(0, 17)[0] == l[0]);
    }
    if has_prefix(l, "DOC_OPEN"@) {
        assert(l.subrange(0, 8)[0] == l[0]);
    }
}

proof fn lemma_param_docs(ps: Seq<(u32, Seq<char>)>)
    ensures
        segs_docs(param_lines(ps)) == Seq::<Seq<char>>::empty(),
    decreases ps.len(),
{
    if ps.len() > 0 {
        let p = ps.drop_last();
        lemma_param_docs(p);
        let l = seq!['$'] + dec(ps.last().0 as nat) + seq![' '] + ps.last().1;
        assert(param_lines(ps).drop_last() =~= param_lines(p));
        assert(param_lines(ps).last() == l);
        assert(l[0] == '$');
        lemma_no_docs(l);
        assert(segs_docs(param_lines(ps)) =~= Seq::<Seq<char>>::empty());
    }
}

/// What a rendered event records of documents when scanned.
proof fn lemma_event_docs(b: BodyView, t: i64, last: Option<u64>)
    requires
        body_words(b),
    ensures
        segs_docs(event_lines(b, t, last)) == event_docs(b, last),
{
    reveal_strlit("QS ");
    reveal_strlit(" {");
    reveal_strlit("}");
    reveal_strlit("CARD_SEARCH_START");
    reveal_strlit("CARD_SEARCH_START ");
    reveal_strlit("CARD_SEARCH_END");
    reveal_strlit("DOC_OPEN");
    reveal_strlit("DOC_OPEN ");
    let ts = fmt_ts_spec(t);
    lemma_fmt_ts(t);
    match b {
        BodyView::Query { query, search_id, docs } => {
            let a = "QS "@ + ts + " {"@ + query + "}"@;
            let r = result_line(search_id, docs);
            assert(event_lines(b, t, last) =~= seq![a] + seq![r]);
            lemma_segs_docs_append(seq![a], seq![r]);
            lemma_segs_docs_one(a);
            lemma_segs_docs_one(r);
            assert(a[0] == 'Q');
            assert(a[a.len() - 1] == '}');
            lemma_trim_id(a);
            assert(a.subrange(0, 3) =~= "QS "@);
            lemma_result_docs(search_id, docs);
            assert(Seq::<Seq<char>>::empty() + underscored(docs) =~= underscored(docs));
        },
        BodyView::Card { search_id, params, docs } => {
            let a = "CARD_SEARCH_START "@ + ts;
            let e = "CARD_SEARCH_END"@;
            let r = result_line(search_id, docs);
            let m = param_lines(params);
            assert(event_lines(b, t, last) =~= seq![a] + m + (seq![e] + seq![r]));
            lemma_segs_docs_append(seq![a] + m, seq![e] + seq![r]);
            lemma_segs_docs_append(seq![a], m);
            lemma_segs_docs_append(seq![e], seq![r]);
            lemma_segs_docs_one(a);
            lemma_segs_docs_one(e);
            lemma_segs_docs_one(r);
            lemma_param_docs(params);
            lemma_result_docs(search_id, docs);
            assert(a[0] == 'C');
            assert(a[a.len() - 1] == ts[ts.len() - 1]);
            lemma_trim_id(a);
            assert(a.subrange(0, 17) =~= "CARD_SEARCH_START"@);
            assert(e[0] == 'C');
            assert(e[e.len() - 1] == 'D');
            lemma_trim_id(e);
            assert(line_docs(e) =~= Seq::<Seq<char>>::empty()) by {
                if has_prefix(e, "DOC_OPEN"@) {
                    assert(e.subrange(0, 8)[0] == e[0]);
                }
            }
            assert(segs_docs(event_lines(b, t, last)) =~= event_docs(b, last));
        },
        BodyView::Open { doc } => {
            match last {
                Some(s) => {
                    let x = "DOC_OPEN "@ + ts + seq![' '] + dec(s as nat);
                    let l = x + seq![' '] + doc;
                    assert(l =~= "DOC_OPEN "@ + ts + seq![' '] + dec(s as nat) + seq![' '] + doc);
                    lemma_segs_docs_one(l);
                    assert(l[0] == 'D');
                    assert(l[l.len() - 1] == doc[doc.len() - 1]);
                    lemma_trim_id(l);
                    assert(l.subrange(0, 8) =~= "DOC_OPEN"@);
                    lemma_tokens_word(doc);
                    lemma_tokens_space(x, doc);
                    assert(tokens(l).last() == doc);
                    if has_prefix(l, "QS "@) {
                        assert(l.subrange(0, 3)[0] == l[0]);
                    }
                    if has_prefix(l, "CARD_SEARCH_START"@) {
                        assert(l.subrange(0, 17)[0] == l[0]);
                    }
                },
                None => {},
            }
        },
        BodyView::Idle => {},
    }
}

proof fn lemma_events_docs(start: i64, evs: Seq<EventView>)
    requires
        forall|k: int| 0 <= k < evs.len() ==> body_words(#[trigger] evs[k].body),
    ensures
        segs_docs(events_lines(start, evs)) == events_docs(evs),
    decreases evs.len(),
{
    if evs.len() > 0 {
        let p = evs.drop_last();
        assert forall|k: int| 0 <= k < p.len() implies body_words(#[trigger] p[k].body) by {
            assert(p[k] == evs[k]);
        }
        lemma_events_docs(start, p);
        assert(body_words(evs[evs.len() - 1].body));
        let t = (start + gap_total(evs)) as i64;
        lemma_event_docs(evs.last().body, t, last_search(p));
        lemma_segs_docs_append(
            events_lines(start, p),
            event_lines(evs.last().body, t, last_search(p)),
        );
    }
}

/// Scanning a rendered session gives back, in order, the document ids it
/// wrote: those of each search's results that hold an underscore, and each
/// document opened after a search; provided the plan's texts hold no line
/// breaks, each search lists a document, and document ids are words.
pub proof fn law_render_scan_docs(p: PlanView)
    requires
        plan_single_line(p),
        forall|k: int| 0 <= k < p.events.len() ==> body_words(#[trigger] p.events[k].body),
    ensures
        scan_text(render_text(p)).docs == events_docs(p.events),
{
    reveal_strlit("SESSION_START ");
    reveal_strlit("SESSION_END ");
    reveal_strlit("QS ");
    reveal_strlit("CARD_SEARCH_START");
    reveal_strlit("DOC_OPEN");
    let h = "SESSION_START "@ + fmt_ts_spec(p.start);
    let f = "SESSION_END "@ + fmt_ts_spec(plan_end(p) as i64);
    let m = events_lines(p.start, p.events);
    let r = render_lines(p);
    lemma_ts_nn(p.start);
    lemma_ts_nn(plan_end(p) as i64);
    lemma_nn_concat("SESSION_START "@, fmt_ts_spec(p.start));
    lemma_nn_concat("SESSION_END "@, fmt_ts_spec(plan_end(p) as i64));
    lemma_events_single(p.start, p.events);
    lemma_all_single_concat(seq![h], m);
    lemma_all_single_concat(seq![h] + m, seq![f]);
    lemma_render_unlines(p);
    lemma_segments_unlines(r);
    let segs = r.push(Seq::empty());
    lemma_scan_docs(segs);
    assert(segs.drop_last() =~= r);
    assert(trim(Seq::<char>::empty()) =~= Seq::<char>::empty());
    assert(line_docs(Seq::<char>::empty()) =~= Seq::<Seq<char>>::empty());
    lemma_segs_docs_append(seq![h] + m, seq![f]);
    lemma_segs_docs_append(seq![h], m);
    lemma_segs_docs_one(h);
    lemma_segs_docs_one(f);
    assert(h[0] == 'S');
    assert(f[0] == 'S');
    lemma_no_docs(h);
    lemma_no_docs(f);
    lemma_events_docs(p.start, p.events);
    assert(segs_docs(segs) =~= events_docs(p.events));
}


proof fn lemma_pick_word(s: Seq<Seq<char>>, x: Seq<char>, default: Seq<char>)
    requires
        forall|i: int| 0 <= i < s.len() ==> is_word(#[trigger] s[i]),
        is_word(default),
        pick_or(s, x, default),
    ensures
        is_word(x),
{
    if s.len() > 0 {
        let i = choose|i: int| 0 <= i < s.len() && s[i] == x;
        assert(is_word(s[i]));
    }
}

proof fn lemma_body_words(b: BodyView, kind: Seq<char>, d: DistView, searched: bool)
    requires
        forall|i: int| 0 <= i < d.doc_ids.len() ==> is_word(#[trigger] d.doc_ids[i].0),
        body_fits(b, kind, d, searched),
    ensures
        body_words(b),
{
    reveal_strlit("LAW_0");
    let names = doc_names(d);
    assert forall|i: int| 0 <= i < names.len() implies is_word(#[trigger] names[i]) by {
        assert(names[i] == d.doc_ids[i].0);
    }
    assert(is_word("LAW_0"@));
    match b {
        BodyView::Query { docs, .. } => {
            assert forall|i: int| 0 <= i < docs.len() implies is_word(#[trigger] docs[i]) by {
                lemma_pick_word(names, docs[i], "LAW_0"@);
            }
        },
        BodyView::Card { docs, .. } => {
            assert forall|i: int| 0 <= i < docs.len() implies is_word(#[trigger] docs[i]) by {
                lemma_pick_word(names, docs[i], "LAW_0"@);
            }
        },
        BodyView::Open { doc } => {
            lemma_pick_word(names, doc, "LAW_0"@);
        },
        BodyView::Idle => {},
    }
}

/// A session drawn from distributions whose texts hold no line breaks and
/// whose document ids are words scans back to the document ids it wrote.
pub proof fn law_drawn_session_docs(d: DistView, now: i64, p: PlanView)
    requires
        dist_single_line(d),
        forall|i: int| 0 <= i < d.doc_ids.len() ==> is_word(#[trigger] d.doc_ids[i].0),
        plan_fits(p, d, now),
    ensures
        scan_text(render_text(p)).docs == events_docs(p.events),
{
    assert forall|k: int| 0 <= k < p.events.len() implies body_single_line(
        #[trigger] p.events[k].body,
    ) && body_words(p.events[k].body) by {
        assert(event_fits(p.events[k], d, last_search(p.events.take(k)) is Some));
        let i = choose|i: int|
            #![trigger d.event_kinds[i]]
            0 <= i < d.event_kinds.len() && d.event_kinds[i].1 > 0 && body_fits(
                p.events[k].body,
                d.event_kinds[i].0,
                d,
                last_search(p.events.take(k)) is Some,
            );
        lemma_body_single(p.events[k].body, d.event_kinds[i].0, d, last_search(p.events.take(k)) is Some);
        lemma_body_words(p.events[k].body, d.event_kinds[i].0, d, last_search(p.events.take(k)) is Some);
    }
    law_render_scan_docs(p);
}

} // verus!
